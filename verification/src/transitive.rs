//! The transitive closure builder: reachability per package over live
//! dependency edges, with a memo cache, cycle tracking and the
//! closure-repair pass over loop targets.

use vstd::prelude::*;
use vstd::set_lib::lemma_len_subset;
use vstd::seq_lib::seq_to_set_is_finite;
use crate::cache::ClosureCache;
use crate::deps::gather_dependencies;
use crate::deps::lemma_selected_exists;
use crate::deps::spec_gather_dependencies;
use crate::names::NameSet;
use crate::names::name_seq_insert;
use crate::names::name_seq_union;
use crate::names::names_view;
use crate::semver_req::check_req;
use crate::semver_req::req_ok;
use crate::snapshot::DepV;
use crate::snapshot::IndexSnapshot;
use crate::snapshot::PackageV;
use crate::snapshot::PackageVersionV;
use crate::snapshot::SnapshotV;
use crate::snapshot::lemma_package_index;
use crate::snapshot::spec_package_index;
use crate::snapshot::spec_package_lookup;

verus! {

broadcast use vstd::set::group_set_axioms;

/// The names of a dependency list.
pub open spec fn deps_names_of(deps: Seq<DepV>) -> Seq<Seq<char>> {
    deps.map_values(|d: DepV| d.name)
}

/// All dependency names declared across a version list.
pub open spec fn versions_dep_names(vs: Seq<PackageVersionV>) -> Seq<Seq<char>>
    decreases vs.len(),
{
    if vs.len() == 0 {
        Seq::empty()
    } else {
        deps_names_of(vs[0].deps) + versions_dep_names(vs.drop_first())
    }
}

/// Every package name and every declared dependency name of a snapshot.
pub open spec fn packages_all_names(ps: Seq<PackageV>) -> Seq<Seq<char>>
    decreases ps.len(),
{
    if ps.len() == 0 {
        Seq::empty()
    } else {
        seq![ps[0].name] + versions_dep_names(ps[0].versions) + packages_all_names(
            ps.drop_first())
    }
}

/// The finite universe of names a traversal of the snapshot can visit.
pub open spec fn universe(s: SnapshotV) -> Set<Seq<char>> {
    packages_all_names(s.packages).to_set()
}

/// The universe is finite.
pub proof fn lemma_universe_finite(s: SnapshotV)
    ensures
        universe(s).finite(),
{
    seq_to_set_is_finite(packages_all_names(s.packages));
}

/// An element on either side lands in the concatenation.
proof fn lemma_concat_contains(a: Seq<Seq<char>>, b: Seq<Seq<char>>, x: Seq<char>)
    requires
        a.contains(x) || b.contains(x),
    ensures
        (a + b).contains(x),
{
    if a.contains(x) {
        let i = choose|i: int| 0 <= i < a.len() && a[i] == x;
        assert((a + b)[i] == x);
    } else {
        let i = choose|i: int| 0 <= i < b.len() && b[i] == x;
        assert((a + b)[a.len() + i] == x);
    }
}

/// A declared dependency name of some version is among the version list's
/// dependency names.
proof fn lemma_versions_dep_names(vs: Seq<PackageVersionV>, vi: int, k: int)
    requires
        0 <= vi < vs.len(),
        0 <= k < vs[vi].deps.len(),
    ensures
        versions_dep_names(vs).contains(vs[vi].deps[k].name),
    decreases vi,
{
    if vi == 0 {
        assert(deps_names_of(vs[0].deps)[k] == vs[0].deps[k].name);
        assert(deps_names_of(vs[0].deps).contains(vs[0].deps[k].name));
        lemma_concat_contains(deps_names_of(vs[0].deps), versions_dep_names(
            vs.drop_first()), vs[0].deps[k].name);
    } else {
        lemma_versions_dep_names(vs.drop_first(), vi - 1, k);
        lemma_concat_contains(deps_names_of(vs[0].deps), versions_dep_names(
            vs.drop_first()), vs[vi].deps[k].name);
    }
}

/// Every package name is in the universe.
pub proof fn lemma_universe_has_package(s: SnapshotV, pi: int)
    requires
        0 <= pi < s.packages.len(),
    ensures
        universe(s).contains(s.packages[pi].name),
{
    lemma_packages_all_names_pkg(s.packages, pi);
}

proof fn lemma_packages_all_names_pkg(ps: Seq<PackageV>, pi: int)
    requires
        0 <= pi < ps.len(),
    ensures
        packages_all_names(ps).contains(ps[pi].name),
    decreases pi,
{
    if pi == 0 {
        assert((seq![ps[0].name] + versions_dep_names(ps[0].versions))[0]
            == ps[0].name);
        lemma_concat_contains(seq![ps[0].name] + versions_dep_names(ps[0].versions),
            packages_all_names(ps.drop_first()), ps[0].name);
    } else {
        lemma_packages_all_names_pkg(ps.drop_first(), pi - 1);
        lemma_concat_contains(seq![ps[0].name] + versions_dep_names(ps[0].versions),
            packages_all_names(ps.drop_first()), ps[pi].name);
    }
}

proof fn lemma_packages_all_names_dep(ps: Seq<PackageV>, pi: int, vi: int, k: int)
    requires
        0 <= pi < ps.len(),
        0 <= vi < ps[pi].versions.len(),
        0 <= k < ps[pi].versions[vi].deps.len(),
    ensures
        packages_all_names(ps).contains(ps[pi].versions[vi].deps[k].name),
    decreases pi,
{
    if pi == 0 {
        lemma_versions_dep_names(ps[0].versions, vi, k);
        lemma_concat_contains(seq![ps[0].name], versions_dep_names(ps[0].versions),
            ps[0].versions[vi].deps[k].name);
        lemma_concat_contains(seq![ps[0].name] + versions_dep_names(ps[0].versions),
            packages_all_names(ps.drop_first()), ps[0].versions[vi].deps[k].name);
    } else {
        lemma_packages_all_names_dep(ps.drop_first(), pi - 1, vi, k);
        lemma_concat_contains(seq![ps[0].name] + versions_dep_names(ps[0].versions),
            packages_all_names(ps.drop_first()), ps[pi].versions[vi].deps[k].name);
    }
}

/// Every edge the gatherer returns targets a name of the universe.
pub proof fn lemma_gathered_deps_in_universe(
    s: SnapshotV,
    name: Seq<char>,
    req: Seq<char>,
    enabled: Seq<Seq<char>>,
)
    requires
        spec_package_lookup(s, name) is Some,
    ensures
        forall|k: int|
            0 <= k < spec_gather_dependencies(spec_package_lookup(s, name).unwrap(),
                req, enabled).len() ==> universe(s).contains(
                #[trigger] spec_gather_dependencies(spec_package_lookup(s, name).unwrap(),
                req, enabled)[k].name),
{
    let pi = spec_package_index(s, name);
    lemma_package_index(s, name);
    let pkg = s.packages[pi];
    let gathered = spec_gather_dependencies(pkg, req, enabled);
    if crate::deps::spec_selected_version(pkg.versions, req) is Some {
        let pv = crate::deps::spec_selected_version(pkg.versions, req).unwrap();
        lemma_selected_exists(pkg.versions, req);
        let vi = choose|vi: int| 0 <= vi < pkg.versions.len() && pkg.versions[vi] == pv;
        let pred = |d: DepV| crate::deps::dep_live(d, crate::deps::spec_activated(pv,
            enabled));
        assert forall|k: int| 0 <= k < gathered.len() implies universe(s).contains(
            (#[trigger] gathered[k]).name) by {
            assert(gathered.contains(gathered[k]));
            pv.deps.lemma_filter_contains_rev(pred, gathered[k]);
            assert(pv.deps.contains(gathered[k]));
            let j = choose|j: int| 0 <= j < pv.deps.len() && pv.deps[j] == gathered[k];
            lemma_packages_all_names_dep(s.packages, pi, vi, j);
        }
    }
}

/// The enabled-feature set handed down a dependency edge: the edge's
/// requested sub-features, plus the default feature when the edge keeps
/// default features on.
pub open spec fn dep_enabled(d: DepV) -> Seq<Seq<char>> {
    if d.default_features {
        d.features.push("default"@)
    } else {
        d.features
    }
}

/// One step of the closure traversal for `name`. A cached name answers
/// from the cache. Otherwise every live edge is walked: the target joins
/// the transitive set; a target already on the path joins the looped set;
/// any other target with a parseable requirement is recursed into. The
/// computed set is cached before the repair pass, under the policy that
/// the first activation context to reach a name fixes its cached closure
/// for the rest of the snapshot.
pub open spec fn spec_transitive(
    s: SnapshotV,
    name: Seq<char>,
    req: Seq<char>,
    enabled: Seq<Seq<char>>,
    trace: Set<Seq<char>>,
    cache: Map<Seq<char>, Seq<Seq<char>>>,
) -> (Seq<Seq<char>>, Seq<Seq<char>>, Map<Seq<char>, Seq<Seq<char>>>)
    decreases universe(s).len() - trace.len(), 1int, 0int,
    when trace.finite() && trace.subset_of(universe(s))
{
    if cache.contains_key(name) {
        (cache[name], Seq::empty(), cache)
    } else {
        let deps = match spec_package_lookup(s, name) {
            Option::None => Seq::<DepV>::empty(),
            Option::Some(pkg) => spec_gather_dependencies(pkg, req, enabled),
        };
        let r = spec_process_deps(s, deps, trace, cache, Seq::empty(), Seq::empty());
        (r.0, r.1, r.2.insert(name, r.0))
    }
}

/// Walk the edges of one node in order, threading the accumulated
/// transitive set, looped set and cache.
pub open spec fn spec_process_deps(
    s: SnapshotV,
    deps: Seq<DepV>,
    trace: Set<Seq<char>>,
    cache: Map<Seq<char>, Seq<Seq<char>>>,
    acc_t: Seq<Seq<char>>,
    acc_l: Seq<Seq<char>>,
) -> (Seq<Seq<char>>, Seq<Seq<char>>, Map<Seq<char>, Seq<Seq<char>>>)
    decreases universe(s).len() - trace.len(), 0int, deps.len(),
    when trace.finite() && trace.subset_of(universe(s)) && (forall|k: int|
        0 <= k < deps.len() ==> universe(s).contains((#[trigger] deps[k]).name))
{
    if deps.len() == 0 {
        (acc_t, acc_l, cache)
    } else {
        let d = deps[0];
        let t = d.name;
        let acc_t1 = name_seq_insert(acc_t, t);
        if trace.contains(t) {
            spec_process_deps(s, deps.drop_first(), trace, cache, acc_t1,
                name_seq_insert(acc_l, t))
        } else if !req_ok(d.req) {
            spec_process_deps(s, deps.drop_first(), trace, cache, acc_t1, acc_l)
        } else {
            let r = {
                proof {
                    lemma_universe_finite(s);
                    lemma_len_subset(trace.insert(t), universe(s));
                }
                spec_transitive(s, t, d.req, dep_enabled(d), trace.insert(t), cache)
            };
            spec_process_deps(s, deps.drop_first(), trace, r.2,
                name_seq_union(acc_t1, r.0), name_seq_union(acc_l, r.1))
        }
    }
}

/// Compute the transitive reachable set of `name` under its activation
/// context, mirroring `spec_transitive`: the returned pair holds the
/// transitive set and the looped set, and the memo cache is extended with
/// the closure of every name whose traversal completed.
#[verifier::loop_isolation(false)]
pub fn gather_transitive(
    snap: &IndexSnapshot,
    name: &String,
    requirement: &String,
    enabled_features: &Vec<String>,
    trace: NameSet,
    cache: &mut ClosureCache,
) -> (r: (NameSet, NameSet))
    requires
        old(cache).wf(),
        trace.wf(),
        trace.set_view().subset_of(universe(snap@)),
        trace.set_view().contains(name@),
    ensures
        r.0.wf(),
        r.1.wf(),
        final(cache).wf(),
        r.0.seq_view() == spec_transitive(snap@, name@, requirement@, names_view(
            enabled_features@), trace.set_view(), old(cache).map_view()).0,
        r.1.seq_view() == spec_transitive(snap@, name@, requirement@, names_view(
            enabled_features@), trace.set_view(), old(cache).map_view()).1,
        final(cache).map_view() == spec_transitive(snap@, name@, requirement@,
            names_view(enabled_features@), trace.set_view(), old(cache).map_view()).2,
        forall|n: Seq<char>|
            old(cache).map_view().contains_key(n) ==> final(
            cache).map_view().contains_key(n),
        forall|n: Seq<char>|
            final(cache).map_view().contains_key(n) && !old(
            cache).map_view().contains_key(n) ==> n == name@
                || !trace.set_view().contains(n),
    decreases universe(snap@).len() - trace.set_view().len(),
{
    proof {
        lemma_universe_finite(snap@);
        lemma_len_subset(trace.set_view(), universe(snap@));
    }
    let memo = cache.get_index(name);
    if let Some(ci) = memo {
        let cached = cache.set_at(ci).duplicate();
        return (cached, NameSet::empty());
    }
    let found = snap.find_package(name);
    let deps: Vec<crate::snapshot::Dep> = match found {
        Some(pi) => {
            proof {
                assert(snap@.packages[pi as int] == snap.packages@[pi as int]@);
            }
            gather_dependencies(&snap.packages[pi], requirement, enabled_features)
        },
        None => Vec::new(),
    };
    let ghost dv = crate::snapshot::deps_view(deps@);
    let ghost tset = trace.set_view();
    let ghost c_start = cache.map_view();
    proof {
        assert(dv == match spec_package_lookup(snap@, name@) {
            Option::None => Seq::<DepV>::empty(),
            Option::Some(pkg) => spec_gather_dependencies(pkg, requirement@,
                names_view(enabled_features@)),
        });
        if spec_package_lookup(snap@, name@) is Some {
            lemma_gathered_deps_in_universe(snap@, name@, requirement@, names_view(
                enabled_features@));
        }
        assert(forall|k: int|
            0 <= k < dv.len() ==> universe(snap@).contains((#[trigger] dv[k]).name));
    }
    let ghost pr_full = spec_process_deps(snap@, dv, tset, c_start, Seq::empty(),
        Seq::empty());
    let mut ret_transitive = NameSet::empty();
    let mut ret_looped = NameSet::empty();
    proof {
        assert(dv.skip(0) =~= dv);
    }
    let m = deps.len();
    for k in 0..m
        invariant
            m == deps@.len(),
            dv == crate::snapshot::deps_view(deps@),
            ret_transitive.wf(),
            ret_looped.wf(),
            cache.wf(),
            pr_full.0 == spec_process_deps(snap@, dv.skip(k as int), tset,
                cache.map_view(), ret_transitive.seq_view(),
                ret_looped.seq_view()).0,
            pr_full.1 == spec_process_deps(snap@, dv.skip(k as int), tset,
                cache.map_view(), ret_transitive.seq_view(),
                ret_looped.seq_view()).1,
            pr_full.2 == spec_process_deps(snap@, dv.skip(k as int), tset,
                cache.map_view(), ret_transitive.seq_view(),
                ret_looped.seq_view()).2,
            forall|n: Seq<char>|
                c_start.contains_key(n) ==> cache.map_view().contains_key(n),
            forall|n: Seq<char>|
                cache.map_view().contains_key(n) && !c_start.contains_key(n)
                    ==> !tset.contains(n),
    {
        let ghost pend = dv.skip(k as int);
        let ghost cnow = cache.map_view();
        let ghost rtpre = ret_transitive.seq_view();
        let ghost rlpre = ret_looped.seq_view();
        proof {
            assert(pend[0] == dv[k as int]);
            assert(pend.drop_first() =~= dv.skip(k + 1));
            assert(forall|i: int|
                0 <= i < pend.len() ==> universe(snap@).contains((
                #[trigger] pend[i]).name));
        }
        let dep = &deps[k];
        let ghost d = dv[k as int];
        proof {
            assert(d == dep@);
        }
        ret_transitive.insert(dep.name.clone());
        proof {
            assert(ret_transitive.seq_view() == name_seq_insert(rtpre, d.name));
        }
        let on_path = trace.contains(&dep.name);
        if !on_path {
            if check_req(&dep.req) {
                let mut dep_features: Vec<String> = dep.features.clone();
                proof {
                    assert(names_view(dep_features@) =~= d.features);
                }
                if dep.default_features {
                    dep_features.push("default".to_owned());
                    proof {
                        assert(names_view(dep_features@) =~= d.features.push(
                            "default"@));
                    }
                }
                proof {
                    assert(names_view(dep_features@) == dep_enabled(d));
                }
                let mut new_trace = trace.duplicate();
                new_trace.insert(dep.name.clone());
                proof {
                    assert(new_trace.set_view() =~= tset.insert(d.name));
                    lemma_len_subset(new_trace.set_view(), universe(snap@));
                }
                let ghost c_in = cache.map_view();
                let sub = gather_transitive(snap, &dep.name, &dep.req, &dep_features,
                    new_trace, cache);
                let ghost child = spec_transitive(snap@, d.name, d.req, dep_enabled(d),
                    tset.insert(d.name), c_in);
                ret_transitive.union_with(&sub.0);
                ret_looped.union_with(&sub.1);
                proof {
                    assert(ret_transitive.seq_view() == name_seq_union(
                        name_seq_insert(rtpre, d.name), child.0));
                    assert(ret_looped.seq_view() == name_seq_union(rlpre, child.1));
                    assert forall|n: Seq<char>|
                        cache.map_view().contains_key(n) && !c_start.contains_key(n)
                            implies !tset.contains(n) by {
                        if !c_in.contains_key(n) {
                            assert(n == d.name || !tset.insert(d.name).contains(n));
                        }
                    }
                }
            }
        } else {
            ret_looped.insert(dep.name.clone());
            proof {
                assert(ret_looped.seq_view() == name_seq_insert(rlpre, d.name));
            }
        }
    }
    proof {
        assert(dv.skip(m as int) =~= Seq::<DepV>::empty());
    }
    cache.insert_new(name.clone(), ret_transitive.duplicate());
    (ret_transitive, ret_looped)
}

/// A package with no declared dependencies has an empty transitive
/// closure: its traversal walks no edge, records nothing as looped, and
/// caches the empty set for its name.
pub proof fn lemma_no_deps_closure_empty(
    s: SnapshotV,
    name: Seq<char>,
    req: Seq<char>,
    enabled: Seq<Seq<char>>,
    trace: Set<Seq<char>>,
    cache: Map<Seq<char>, Seq<Seq<char>>>,
)
    requires
        trace.finite(),
        trace.subset_of(universe(s)),
        !cache.contains_key(name),
        spec_package_lookup(s, name) is Some ==> forall|vi: int|
            0 <= vi < spec_package_lookup(s, name).unwrap().versions.len() ==> (
            #[trigger] spec_package_lookup(s, name).unwrap().versions[vi]).deps.len()
                == 0,
    ensures
        spec_transitive(s, name, req, enabled, trace, cache).0 == Seq::<Seq<
            char>>::empty(),
        spec_transitive(s, name, req, enabled, trace, cache).1 == Seq::<Seq<
            char>>::empty(),
        spec_transitive(s, name, req, enabled, trace, cache).2 == cache.insert(name,
            Seq::<Seq<char>>::empty()),
{
    let deps = match spec_package_lookup(s, name) {
        Option::None => Seq::<DepV>::empty(),
        Option::Some(pkg) => spec_gather_dependencies(pkg, req, enabled),
    };
    assert(deps.len() == 0) by {
        if spec_package_lookup(s, name) is Some {
            let pkg = spec_package_lookup(s, name).unwrap();
            if crate::deps::spec_selected_version(pkg.versions, req) is Some {
                let pv = crate::deps::spec_selected_version(pkg.versions,
                    req).unwrap();
                lemma_selected_exists(pkg.versions, req);
                let vi = choose|vi: int|
                    0 <= vi < pkg.versions.len() && pkg.versions[vi] == pv;
                assert(pv.deps.len() == 0);
                let pred = |d: DepV| crate::deps::dep_live(d,
                    crate::deps::spec_activated(pv, enabled));
                pv.deps.lemma_filter_len(pred);
            }
        }
    }
}

/// One repair step: for one loop target `l` with cached closure
/// `l_cached`, walk the transitive names in order and union `l_cached`
/// into every cached closure that holds `l`. A name without a cache entry
/// is left alone: such a target only arises from an edge whose
/// requirement text does not parse inside a cycle.
pub open spec fn spec_recon_target(
    cache: Map<Seq<char>, Seq<Seq<char>>>,
    transitive: Seq<Seq<char>>,
    l: Seq<char>,
    l_cached: Seq<Seq<char>>,
) -> Map<Seq<char>, Seq<Seq<char>>>
    decreases transitive.len(),
{
    if transitive.len() == 0 {
        cache
    } else {
        let t = transitive[0];
        let cache1 = if cache.contains_key(t) && cache[t].contains(l) {
            cache.insert(t, name_seq_union(cache[t], l_cached))
        } else {
            cache
        };
        spec_recon_target(cache1, transitive.drop_first(), l, l_cached)
    }
}

/// The repair pass, run once per top-level package: every looped name's
/// own cached closure is propagated into the cached closure of each
/// transitive name that already holds it.
pub open spec fn spec_reconcile(
    cache: Map<Seq<char>, Seq<Seq<char>>>,
    transitive: Seq<Seq<char>>,
    looped: Seq<Seq<char>>,
) -> Map<Seq<char>, Seq<Seq<char>>>
    decreases looped.len(),
{
    if looped.len() == 0 {
        cache
    } else {
        let l = looped[0];
        let cache1 = if cache.contains_key(l) {
            spec_recon_target(cache, transitive, l, cache[l])
        } else {
            cache
        };
        spec_reconcile(cache1, transitive, looped.drop_first())
    }
}

/// Run the repair pass on the memo cache, mirroring `spec_reconcile`.
#[verifier::loop_isolation(false)]
pub fn reconcile_cache(cache: &mut ClosureCache, transitive: &NameSet, looped: &NameSet)
    requires
        old(cache).wf(),
    ensures
        final(cache).wf(),
        final(cache).map_view() == spec_reconcile(old(cache).map_view(),
            transitive.seq_view(), looped.seq_view()),
{
    let ghost lseq = looped.seq_view();
    let ghost tseq = transitive.seq_view();
    let ghost c0 = cache.map_view();
    proof {
        assert(lseq.skip(0) =~= lseq);
    }
    let nl = looped.len();
    for li in 0..nl
        invariant
            nl == lseq.len(),
            cache.wf(),
            spec_reconcile(c0, tseq, lseq) == spec_reconcile(cache.map_view(), tseq,
                lseq.skip(li as int)),
    {
        let ghost lpend = lseq.skip(li as int);
        proof {
            assert(lpend[0] == lseq[li as int]);
            assert(lpend.drop_first() =~= lseq.skip(li + 1));
        }
        let lname = looped.index(li);
        let lhit = cache.get_index(lname);
        if let Some(lidx) = lhit {
            let l_cached = cache.set_at(lidx).duplicate();
            let ghost c_before = cache.map_view();
            let ghost lv = lname@;
            let ghost lcv = l_cached.seq_view();
            proof {
                assert(tseq.skip(0) =~= tseq);
            }
            let nt = transitive.len();
            for ti in 0..nt
                invariant
                    nt == tseq.len(),
                    cache.wf(),
                    spec_recon_target(c_before, tseq, lv, lcv) == spec_recon_target(
                        cache.map_view(), tseq.skip(ti as int), lv, lcv),
            {
                let ghost tpend = tseq.skip(ti as int);
                proof {
                    assert(tpend[0] == tseq[ti as int]);
                    assert(tpend.drop_first() =~= tseq.skip(ti + 1));
                }
                let tname = transitive.index(ti);
                let thit = cache.get_index(tname);
                if let Some(tidx) = thit {
                    let holds = cache.set_at(tidx).contains(lname);
                    if holds {
                        cache.union_into(tidx, &l_cached);
                    }
                }
            }
            proof {
                assert(tseq.skip(nt as int) =~= Seq::<Seq<char>>::empty());
            }
        }
    }
    proof {
        assert(lseq.skip(nl as int) =~= Seq::<Seq<char>>::empty());
    }
}

} // verus!
