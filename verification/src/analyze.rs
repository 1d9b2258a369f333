//! The snapshot analyzer: dependent counts for one snapshot, recorded
//! into the time-series store.

use vstd::prelude::*;
use crate::cache::ClosureCache;
use crate::counts::CountMap;
use crate::counts::cnt_of;
use crate::counts::lemma_add_direct_monotone;
use crate::counts::lemma_add_trans_monotone;
use crate::counts::spec_add_direct;
use crate::counts::spec_add_trans;
use crate::counts::spec_bump_direct;
use crate::counts::spec_bump_trans;
use crate::deps::gather_dependencies;
use crate::deps::spec_gather_dependencies;
use crate::names::NameSet;
use crate::names::names_view;
use crate::snapshot::IndexSnapshot;
use crate::snapshot::PackageV;
use crate::snapshot::SnapshotV;
use crate::snapshot::deps_view;
use crate::store::Db;
use crate::store::Entry;
use crate::store::db_map_wf;
use crate::store::db_times_bounded;
use crate::store::db_view;
use crate::store::db_wf;
use crate::store::entries_ok;
use crate::store::lemma_index_of_prefix;
use crate::store::lemma_map_index_exists;
use crate::store::lemma_map_index_miss;
use crate::store::lemma_map_index_of;
use crate::store::map_append_at;
use crate::store::map_as_map;
use crate::store::map_find;
use crate::store::map_index_of;
use crate::transitive::deps_names_of;
use crate::transitive::gather_transitive;
use crate::transitive::lemma_universe_has_package;
use crate::transitive::reconcile_cache;
use crate::transitive::spec_reconcile;
use crate::transitive::spec_transitive;
use crate::transitive::universe;

verus! {

broadcast use vstd::set::group_set_axioms;

/// Failure of a snapshot analysis.
#[derive(Clone, Copy, Debug, PartialEq, Eq, Structural)]
pub enum AnalyzeError {
    /// A dependent counter would not fit in 64 bits.
    CountOverflow,
}

/// The whole-snapshot version requirement: any version.
pub open spec fn star_req() -> Seq<char> {
    "*"@
}

/// The whole-snapshot enabled-feature set: exactly the default feature.
pub open spec fn default_enabled() -> Seq<Seq<char>> {
    seq!["default"@]
}

/// Analysis of one package: each live direct edge counts one direct
/// dependent for its target; the package's transitive closure, computed
/// with a fresh path trace and the shared memo cache and followed by the
/// cache repair pass, counts one transitive dependent for each member.
pub open spec fn spec_package_counts(
    s: SnapshotV,
    c: Map<Seq<char>, (nat, nat)>,
    cache: Map<Seq<char>, Seq<Seq<char>>>,
    p: PackageV,
) -> (Map<Seq<char>, (nat, nat)>, Map<Seq<char>, Seq<Seq<char>>>) {
    let edges = spec_gather_dependencies(p, star_req(), default_enabled());
    let c1 = spec_add_direct(c, deps_names_of(edges));
    let r = spec_transitive(s, p.name, star_req(), default_enabled(),
        Set::empty().insert(p.name), cache);
    let cache1 = spec_reconcile(r.2, r.0, r.1);
    (spec_add_trans(c1, r.0), cache1)
}

/// Analysis of the packages in order, threading counters and cache.
pub open spec fn spec_count_loop(
    s: SnapshotV,
    ps: Seq<PackageV>,
    c: Map<Seq<char>, (nat, nat)>,
    cache: Map<Seq<char>, Seq<Seq<char>>>,
) -> (Map<Seq<char>, (nat, nat)>, Map<Seq<char>, Seq<Seq<char>>>)
    decreases ps.len(),
{
    if ps.len() == 0 {
        (c, cache)
    } else {
        let r = spec_package_counts(s, c, cache, ps[0]);
        spec_count_loop(s, ps.drop_first(), r.0, r.1)
    }
}

/// The dependent counters of a whole snapshot: direct and transitive
/// dependents per package name, starting from empty counters and an
/// empty memo cache.
pub open spec fn spec_snapshot_counts(s: SnapshotV) -> Map<Seq<char>, (nat, nat)> {
    spec_count_loop(s, s.packages, Map::empty(), Map::empty()).0
}

/// Whether every counter of the snapshot fits in 64 bits.
pub open spec fn counts_bounded(s: SnapshotV) -> bool {
    forall|n: Seq<char>|
        #![trigger cnt_of(spec_snapshot_counts(s), n)]
        cnt_of(spec_snapshot_counts(s), n).0 <= u64::MAX && cnt_of(
            spec_snapshot_counts(s), n).1 <= u64::MAX
}

/// One package's analysis never lowers a counter.
proof fn lemma_package_counts_monotone(
    s: SnapshotV,
    c: Map<Seq<char>, (nat, nat)>,
    cache: Map<Seq<char>, Seq<Seq<char>>>,
    p: PackageV,
    n: Seq<char>,
)
    ensures
        cnt_of(spec_package_counts(s, c, cache, p).0, n).0 >= cnt_of(c, n).0,
        cnt_of(spec_package_counts(s, c, cache, p).0, n).1 >= cnt_of(c, n).1,
{
    let edges = spec_gather_dependencies(p, star_req(), default_enabled());
    let c1 = spec_add_direct(c, deps_names_of(edges));
    let r = spec_transitive(s, p.name, star_req(), default_enabled(),
        Set::empty().insert(p.name), cache);
    lemma_add_direct_monotone(c, deps_names_of(edges), n);
    lemma_add_trans_monotone(c1, r.0, n);
}

/// The whole loop never lowers a counter.
proof fn lemma_count_loop_monotone(
    s: SnapshotV,
    ps: Seq<PackageV>,
    c: Map<Seq<char>, (nat, nat)>,
    cache: Map<Seq<char>, Seq<Seq<char>>>,
    n: Seq<char>,
)
    ensures
        cnt_of(spec_count_loop(s, ps, c, cache).0, n).0 >= cnt_of(c, n).0,
        cnt_of(spec_count_loop(s, ps, c, cache).0, n).1 >= cnt_of(c, n).1,
    decreases ps.len(),
{
    if ps.len() > 0 {
        let r = spec_package_counts(s, c, cache, ps[0]);
        lemma_package_counts_monotone(s, c, cache, ps[0], n);
        lemma_count_loop_monotone(s, ps.drop_first(), r.0, r.1, n);
    }
}

/// Compute the dependent counters of one snapshot, mirroring
/// `spec_snapshot_counts`: nothing when some counter would not fit in 64
/// bits.
#[verifier::loop_isolation(false)]
fn compute_counts(snap: &IndexSnapshot) -> (r: Option<CountMap>)
    ensures
        r is Some <==> counts_bounded(snap@),
        r is Some ==> r.unwrap().wf() && r.unwrap().map_view()
            == spec_snapshot_counts(snap@),
{
    let mut counts = CountMap::new();
    let mut cache = ClosureCache::new();
    let star: String = "*".to_owned();
    let mut enabled: Vec<String> = Vec::new();
    enabled.push("default".to_owned());
    proof {
        assert(names_view(enabled@) =~= default_enabled());
        assert(snap@.packages.skip(0) =~= snap@.packages);
    }
    let ghost full = spec_count_loop(snap@, snap@.packages, Map::empty(),
        Map::empty());
    let n = snap.packages.len();
    for i in 0..n
        invariant
            n == snap.packages@.len(),
            snap@.packages.len() == n,
            star@ == star_req(),
            names_view(enabled@) == default_enabled(),
            counts.wf(),
            cache.wf(),
            full.0 == spec_count_loop(snap@, snap@.packages.skip(i as int),
                counts.map_view(), cache.map_view()).0,
            full.1 == spec_count_loop(snap@, snap@.packages.skip(i as int),
                counts.map_view(), cache.map_view()).1,
    {
        let ghost pendp = snap@.packages.skip(i as int);
        let ghost p = snap@.packages[i as int];
        let ghost c_pre = counts.map_view();
        let ghost cache_pre = cache.map_view();
        let ghost pkg = spec_package_counts(snap@, c_pre, cache_pre, p);
        proof {
            assert(pendp[0] == p);
            assert(pendp.drop_first() =~= snap@.packages.skip(i + 1));
            assert(p == snap.packages@[i as int]@);
        }
        let edges = gather_dependencies(&snap.packages[i], &star, &enabled);
        let ghost ev = deps_names_of(deps_view(edges@));
        let ghost c1 = spec_add_direct(c_pre, ev);
        proof {
            assert(ev.skip(0) =~= ev);
        }
        let m = edges.len();
        for k in 0..m
            invariant
                m == edges@.len(),
                ev.len() == m,
                counts.wf(),
                c1 == spec_add_direct(counts.map_view(), ev.skip(k as int)),
        {
            let ghost cnow = counts.map_view();
            let ghost t = ev[k as int];
            proof {
                assert(ev.skip(k as int)[0] == t);
                assert(ev.skip(k as int).drop_first() =~= ev.skip(k + 1));
                assert(t == deps_view(edges@)[k as int].name);
                assert(t == edges@[k as int].name@);
            }
            let ok = counts.bump_direct(&edges[k].name);
            if !ok {
                proof {
                    lemma_add_direct_monotone(spec_bump_direct(cnow, t), ev.skip(k
                        + 1), t);
                    assert(cnt_of(c1, t).0 > u64::MAX);
                    lemma_add_trans_monotone(c1, spec_transitive(snap@, p.name,
                        star_req(), default_enabled(), Set::empty().insert(p.name),
                        cache_pre).0, t);
                    assert(cnt_of(pkg.0, t).0 > u64::MAX);
                    lemma_count_loop_monotone(snap@, pendp.drop_first(), pkg.0,
                        pkg.1, t);
                    assert(cnt_of(full.0, t).0 > u64::MAX);
                    assert(cnt_of(spec_snapshot_counts(snap@), t).0 > u64::MAX);
                    assert(!counts_bounded(snap@));
                }
                return None;
            }
        }
        proof {
            assert(ev.skip(m as int) =~= Seq::<Seq<char>>::empty());
            assert(counts.map_view() == c1);
        }
        let trace = NameSet::singleton(snap.packages[i].name.clone());
        proof {
            assert(snap.packages@[i as int]@.name == p.name);
            assert(trace.set_view() =~= Set::empty().insert(p.name));
            lemma_universe_has_package(snap@, i as int);
            assert forall|x: Seq<char>| trace.set_view().contains(x) implies
                universe(snap@).contains(x) by {
                assert(x == p.name);
            }
            assert(trace.set_view().contains(p.name));
        }
        let ghost cache_in = cache.map_view();
        let ghost r = spec_transitive(snap@, p.name, star_req(), default_enabled(),
            Set::empty().insert(p.name), cache_in);
        let (tr, lp) = gather_transitive(snap, &snap.packages[i].name, &star,
            &enabled, trace, &mut cache);
        proof {
            assert(tr.seq_view() == r.0);
            assert(lp.seq_view() == r.1);
            assert(cache.map_view() == r.2);
        }
        reconcile_cache(&mut cache, &tr, &lp);
        proof {
            assert(cache.map_view() == spec_reconcile(r.2, r.0, r.1));
            assert(r.0.skip(0) =~= r.0);
        }
        let ghost c2 = spec_add_trans(c1, r.0);
        let tl = tr.len();
        for k in 0..tl
            invariant
                tl == tr.seq_view().len(),
                tr.seq_view() == r.0,
                counts.wf(),
                c2 == spec_add_trans(counts.map_view(), r.0.skip(k as int)),
        {
            let ghost cnow = counts.map_view();
            let ghost t = r.0[k as int];
            proof {
                assert(r.0.skip(k as int)[0] == t);
                assert(r.0.skip(k as int).drop_first() =~= r.0.skip(k + 1));
            }
            let ok = counts.bump_trans(tr.index(k));
            if !ok {
                proof {
                    lemma_add_trans_monotone(spec_bump_trans(cnow, t), r.0.skip(k
                        + 1), t);
                    assert(cnt_of(c2, t).1 > u64::MAX);
                    assert(cnt_of(pkg.0, t).1 > u64::MAX);
                    lemma_count_loop_monotone(snap@, pendp.drop_first(), pkg.0,
                        pkg.1, t);
                    assert(cnt_of(full.0, t).1 > u64::MAX);
                    assert(cnt_of(spec_snapshot_counts(snap@), t).1 > u64::MAX);
                    assert(!counts_bounded(snap@));
                }
                return None;
            }
        }
        proof {
            assert(r.0.skip(tl as int) =~= Seq::<Seq<char>>::empty());
            assert(counts.map_view() == c2);
            assert(pkg.0 == c2);
            assert(pkg.1 == cache.map_view());
        }
    }
    proof {
        assert(snap@.packages.skip(n as int) =~= Seq::<PackageV>::empty());
        assert(counts.map_view() == full.0);
        assert forall|nm: Seq<char>|
            #![trigger cnt_of(spec_snapshot_counts(snap@), nm)]
            cnt_of(spec_snapshot_counts(snap@), nm).0 <= u64::MAX && cnt_of(
            spec_snapshot_counts(snap@), nm).1 <= u64::MAX by {
            if counts.map_view().contains_key(nm) {
                let idx = crate::cache::cache_index_of(counts.key_seq(), nm);
                crate::cache::lemma_cache_index_of(counts.key_seq(), nm);
            }
        }
    }
    Some(counts)
}

/// The entry one snapshot analysis would record for a name.
pub open spec fn spec_entry_for(
    counts: Map<Seq<char>, (nat, nat)>,
    n: Seq<char>,
    time: i64,
    total: u64,
) -> Entry {
    Entry {
        time: time,
        direct_dependents: cnt_of(counts, n).0 as u64,
        transitive_dependents: cnt_of(counts, n).1 as u64,
        total_crates: total,
    }
}

/// Append `e` to a history unless the newest entry already carries the
/// same pair of counts: an unchanged result is never recorded twice.
pub open spec fn spec_apply_entries(es: Seq<Entry>, e: Entry) -> Seq<Entry> {
    if es.len() > 0 && es.last().direct_dependents == e.direct_dependents
        && es.last().transitive_dependents == e.transitive_dependents {
        es
    } else {
        es.push(e)
    }
}

/// The store content after recording one snapshot's counters at `time`:
/// every name counted or already recorded gets the append rule applied,
/// with zero counters for a recorded name the snapshot no longer counts.
pub open spec fn spec_apply_map(
    m: Map<Seq<char>, Seq<Entry>>,
    counts: Map<Seq<char>, (nat, nat)>,
    time: i64,
    total: u64,
) -> Map<Seq<char>, Seq<Entry>> {
    Map::new(
        |n: Seq<char>| m.contains_key(n) || counts.contains_key(n),
        |n: Seq<char>|
            if m.contains_key(n) {
                spec_apply_entries(m[n], spec_entry_for(counts, n, time, total))
            } else {
                seq![spec_entry_for(counts, n, time, total)]
            },
    )
}

/// Idempotence: recording the same counters twice changes nothing the
/// second time. After the first recording, every covered name's newest
/// entry already carries its counter pair, so the second pass appends no
/// entry for any name.
pub proof fn lemma_record_idempotent(
    m: Map<Seq<char>, Seq<Entry>>,
    counts: Map<Seq<char>, (nat, nat)>,
    t1: i64,
    t2: i64,
    total1: u64,
    total2: u64,
)
    ensures
        spec_apply_map(spec_apply_map(m, counts, t1, total1), counts, t2, total2)
            =~= spec_apply_map(m, counts, t1, total1),
{
    let m1 = spec_apply_map(m, counts, t1, total1);
    let m2 = spec_apply_map(m1, counts, t2, total2);
    assert forall|n: Seq<char>| #[trigger] m2.contains_key(n) implies m2[n]
        == m1[n] by {
        let e1 = spec_entry_for(counts, n, t1, total1);
        let e2 = spec_entry_for(counts, n, t2, total2);
        assert(e1.direct_dependents == e2.direct_dependents);
        assert(e1.transitive_dependents == e2.transitive_dependents);
        assert(m1.contains_key(n));
        assert(m1[n].len() > 0);
        assert(m1[n].last().direct_dependents == e2.direct_dependents
            && m1[n].last().transitive_dependents == e2.transitive_dependents) by {
            if m.contains_key(n) {
                if m[n].len() > 0 && m[n].last().direct_dependents
                    == e1.direct_dependents && m[n].last().transitive_dependents
                    == e1.transitive_dependents {
                    assert(m1[n] == m[n]);
                } else {
                    assert(m1[n] == m[n].push(e1));
                    assert(m1[n].last() == e1);
                }
            } else {
                assert(m1[n] == seq![e1]);
                assert(m1[n].last() == e1);
            }
        }
    }
}

/// The two recording passes together realize the append rule for every
/// name: old names updated in place, freshly counted names appended.
#[verifier::rlimit(100)]
#[verifier::spinoff_prover]
proof fn lemma_apply_final(
    m0: Seq<(String, Vec<Entry>)>,
    mf: Seq<(String, Vec<Entry>)>,
    counts: Map<Seq<char>, (nat, nat)>,
    time: i64,
    total: u64,
    norig: int,
)
    requires
        norig == m0.len(),
        mf.len() >= norig,
        forall|j: int| 0 <= j < norig ==> (#[trigger] mf[j]).0@ == m0[j].0@,
        forall|j: int|
            0 <= j < norig ==> (#[trigger] mf[j]).1@ == spec_apply_entries(m0[j].1@,
            spec_entry_for(counts, m0[j].0@, time, total)),
        forall|j: int|
            norig <= j < mf.len() ==> counts.contains_key((#[trigger] mf[j]).0@)
                && map_index_of(m0, mf[j].0@) < 0 && mf[j].1@ == seq![
                spec_entry_for(counts, mf[j].0@, time, total)],
        forall|a: int, b: int|
            0 <= a < b < mf.len() ==> (#[trigger] mf[a]).0@ != (#[trigger] mf[b]).0@,
        forall|n: Seq<char>|
            #[trigger] counts.contains_key(n) ==> map_index_of(m0, n) >= 0
                || exists|j: int| norig <= j < mf.len() && (#[trigger] mf[j]).0@ == n,
        0 <= time,
        forall|j: int| 0 <= j < norig ==> entries_ok((#[trigger] mf[j]).1@),
        forall|j: int| 0 <= j < norig ==> (#[trigger] mf[j]).1@.len() > 0,
        forall|j: int, q: int|
            0 <= j < norig && 0 <= q < mf[j].1@.len() ==> #[trigger] mf[j].1@[
            q].time <= time,
    ensures
        map_as_map(mf) == spec_apply_map(map_as_map(m0), counts, time, total),
        db_map_wf(mf),
        forall|j: int, q: int|
            0 <= j < mf.len() && 0 <= q < mf[j].1@.len() ==> #[trigger] mf[j].1@[
            q].time <= time,
{
    let v0 = map_as_map(m0);
    let vc = spec_apply_map(v0, counts, time, total);
    assert forall|nm: Seq<char>|
        #[trigger] map_as_map(mf).contains_key(nm) || vc.contains_key(nm) implies
        map_as_map(mf).contains_key(nm) == vc.contains_key(nm) && (map_as_map(
        mf).contains_key(nm) ==> map_as_map(mf)[nm] == vc[nm]) by {
        lemma_map_index_of(m0, nm);
        lemma_map_index_of(mf, nm);
        let j0 = map_index_of(m0, nm);
        if j0 >= 0 {
            assert(m0[j0].0@ == nm);
            assert(mf[j0].0@ == nm);
            assert(forall|j: int| 0 <= j < j0 ==> (#[trigger] mf[j]).0@ != nm);
            lemma_index_of_prefix(mf, nm, j0);
            assert(map_as_map(mf)[nm] == mf[j0].1@);
            assert(mf[j0].1@ == spec_apply_entries(m0[j0].1@, spec_entry_for(counts,
                nm, time, total)));
            assert(v0.contains_key(nm) && v0[nm] == m0[j0].1@);
        } else {
            if counts.contains_key(nm) {
                let j = choose|j: int|
                    norig <= j < mf.len() && (#[trigger] mf[j]).0@ == nm;
                assert(forall|jj: int|
                    0 <= jj < norig ==> (#[trigger] mf[jj]).0@ != nm);
                assert(forall|jj: int|
                    norig <= jj < j ==> (#[trigger] mf[jj]).0@ != nm);
                lemma_index_of_prefix(mf, nm, j);
                assert(map_as_map(mf)[nm] == seq![spec_entry_for(counts, nm, time,
                    total)]);
                assert(!v0.contains_key(nm));
            } else {
                assert(forall|jj: int|
                    0 <= jj < mf.len() ==> (#[trigger] mf[jj]).0@ != nm);
                lemma_map_index_miss(mf, nm);
            }
        }
    }
    assert(map_as_map(mf) =~= vc);
    assert forall|j: int| 0 <= j < mf.len() implies entries_ok((#[trigger] mf[
        j]).1@) && mf[j].1@.len() > 0 by {
        if j >= norig {
            assert(mf[j].1@ == seq![spec_entry_for(counts, mf[j].0@, time, total)]);
            assert(mf[j].1@[0].time == time);
        }
    }
    assert forall|j: int, q: int|
        0 <= j < mf.len() && 0 <= q < mf[j].1@.len() implies #[trigger] mf[j].1@[
        q].time <= time by {
        if j >= norig {
            assert(mf[j].1@ =~= seq![spec_entry_for(counts, mf[j].0@, time,
                total)]);
            assert(mf[j].1@[q] == spec_entry_for(counts, mf[j].0@, time, total));
        }
    }
}

impl Db {
    /// First recording pass: apply the append rule to every name already
    /// in the store, reading its counters (zero when absent) from `cm`.
    #[verifier::loop_isolation(false)]
    #[verifier::rlimit(100)]
    #[verifier::spinoff_prover]
    fn record_existing(&mut self, cm: &CountMap, time: i64, total: u64)
        requires
            db_wf(*old(self)),
            old(self).update < time,
            cm.wf(),
        ensures
            final(self).update == old(self).update,
            final(self).map@.len() == old(self).map@.len(),
            forall|j: int|
                0 <= j < old(self).map@.len() ==> (#[trigger] final(self).map@[
                j]).0 == old(self).map@[j].0,
            forall|j: int|
                0 <= j < old(self).map@.len() ==> (#[trigger] final(self).map@[
                j]).1@ == spec_apply_entries(old(self).map@[j].1@, spec_entry_for(
                cm.map_view(), old(self).map@[j].0@, time, total)),
            forall|j: int|
                0 <= j < old(self).map@.len() ==> entries_ok((#[trigger] final(
                self).map@[j]).1@) && (#[trigger] final(self).map@[j]).1@.len() > 0,
            forall|j: int, q: int|
                0 <= j < final(self).map@.len() && 0 <= q < final(self).map@[
                j].1@.len() ==> #[trigger] final(self).map@[j].1@[q].time <= time,
    {
        let ghost counts = cm.map_view();
        let ghost m0 = self.map@;
        let norig = self.map.len();
        for i in 0..norig
            invariant
                norig == m0.len(),
                self.map@.len() == norig,
                self.update == old(self).update,
                cm.wf(),
                forall|j: int| i <= j < norig ==> self.map@[j] == m0[j],
                forall|j: int|
                    0 <= j < norig ==> (#[trigger] self.map@[j]).0 == m0[j].0,
                forall|j: int|
                    0 <= j < i ==> (#[trigger] self.map@[j]).1@ == spec_apply_entries(
                    m0[j].1@, spec_entry_for(counts, m0[j].0@, time, total)),
                forall|j: int|
                    0 <= j < i ==> entries_ok((#[trigger] self.map@[j]).1@)
                        && (#[trigger] self.map@[j]).1@.len() > 0,
                forall|j: int, q: int|
                    0 <= j < i && 0 <= q < self.map@[j].1@.len()
                        ==> #[trigger] self.map@[j].1@[q].time <= time,
        {
            let ghost nm = m0[i as int].0@;
            let ghost e_spec = spec_entry_for(counts, nm, time, total);
            let c = cm.lookup(&self.map[i].0);
            let e = Entry {
                time: time,
                direct_dependents: c.0,
                transitive_dependents: c.1,
                total_crates: total,
            };
            proof {
                assert(self.map@[i as int] == m0[i as int]);
                assert((c.0 as nat, c.1 as nat) == cnt_of(counts, nm));
                assert(e == e_spec);
                assert(entries_ok(m0[i as int].1@));
                assert(m0[i as int].1@.len() > 0);
            }
            let es_len = self.map[i].1.len();
            let last = self.map[i].1[es_len - 1];
            proof {
                assert(last == m0[i as int].1@.last());
            }
            if !(last.direct_dependents == c.0 && last.transitive_dependents == c.1) {
                proof {
                    assert(m0[i as int].1@.last().time <= old(self).update);
                    crate::store::lemma_entries_push(m0[i as int].1@, e);
                }
                map_append_at(&mut self.map, i, e);
                proof {
                    assert(self.map@[i as int].1@ == spec_apply_entries(m0[
                        i as int].1@, e_spec));
                }
            } else {
                proof {
                    assert(self.map@[i as int].1@ == spec_apply_entries(m0[
                        i as int].1@, e_spec));
                }
            }
        }
    }

    /// Second recording pass: every counted name the store does not hold
    /// yet starts a fresh one-entry history.
    #[verifier::loop_isolation(false)]
    #[verifier::rlimit(100)]
    #[verifier::spinoff_prover]
    fn append_new(&mut self, cm: &CountMap, time: i64, total: u64)
        requires
            cm.wf(),
            forall|a: int, b: int|
                0 <= a < b < old(self).map@.len() ==> (#[trigger] old(self).map@[
                a]).0@ != (#[trigger] old(self).map@[b]).0@,
        ensures
            final(self).update == old(self).update,
            final(self).map@.len() >= old(self).map@.len(),
            forall|j: int|
                0 <= j < old(self).map@.len() ==> #[trigger] final(self).map@[j]
                    == old(self).map@[j],
            forall|j: int|
                old(self).map@.len() <= j < final(self).map@.len() ==> cm.map_view(
                ).contains_key((#[trigger] final(self).map@[j]).0@) && map_index_of(
                old(self).map@, final(self).map@[j].0@) < 0 && final(self).map@[
                j].1@ == seq![spec_entry_for(cm.map_view(), final(self).map@[j].0@,
                time, total)],
            forall|a: int, b: int|
                0 <= a < b < final(self).map@.len() ==> (#[trigger] final(
                self).map@[a]).0@ != (#[trigger] final(self).map@[b]).0@,
            forall|n: Seq<char>|
                #[trigger] cm.map_view().contains_key(n) ==> map_index_of(
                old(self).map@, n) >= 0 || exists|j: int|
                old(self).map@.len() <= j < final(self).map@.len() && (
                #[trigger] final(self).map@[j]).0@ == n,
    {
        let ghost counts = cm.map_view();
        let ghost m1 = self.map@;
        let ghost norig = m1.len();
        let kcnt = cm.len();
        for k in 0..kcnt
            invariant
                kcnt == cm.entries@.len(),
                self.map@.len() >= norig,
                self.update == old(self).update,
                cm.wf(),
                forall|j: int| 0 <= j < norig ==> #[trigger] self.map@[j] == m1[j],
                forall|j: int|
                    norig <= j < self.map@.len() ==> counts.contains_key((
                    #[trigger] self.map@[j]).0@) && map_index_of(m1,
                    self.map@[j].0@) < 0 && self.map@[j].1@ == seq![
                    spec_entry_for(counts, self.map@[j].0@, time, total)],
                forall|a: int, b: int|
                    0 <= a < b < self.map@.len() ==> (#[trigger] self.map@[a]).0@
                        != (#[trigger] self.map@[b]).0@,
                forall|kk: int|
                    0 <= kk < k ==> map_index_of(m1, cm.key_seq()[kk]) >= 0
                        || exists|j: int|
                        norig <= j < self.map@.len() && (#[trigger] self.map@[j]).0@
                            == cm.key_seq()[kk],
        {
            let ghost nm = cm.key_seq()[k as int];
            let name = cm.key_at(k);
            let hit = map_find(&self.map, name);
            match hit {
                Some(_) => {
                    proof {
                        let j1 = map_index_of(self.map@, nm);
                        lemma_map_index_of(self.map@, nm);
                        if j1 < norig {
                            assert(self.map@[j1] == m1[j1]);
                            lemma_map_index_exists(m1, nm, j1);
                        }
                    }
                },
                None => {
                    proof {
                        lemma_map_index_of(self.map@, nm);
                        assert forall|j: int| 0 <= j < norig implies (#[trigger] m1[
                            j]).0@ != nm by {
                            assert(self.map@[j] == m1[j]);
                            assert(self.map@[j].0@ != nm);
                        }
                        lemma_map_index_miss(m1, nm);
                        crate::counts::lemma_cache_index_prefix_unique(cm.key_seq(),
                            k as int);
                    }
                    let c = cm.val_at(k);
                    let e = Entry {
                        time: time,
                        direct_dependents: c.0,
                        transitive_dependents: c.1,
                        total_crates: total,
                    };
                    proof {
                        assert(counts.contains_key(nm));
                        assert((c.0 as nat, c.1 as nat) == counts[nm]);
                        assert(e == spec_entry_for(counts, nm, time, total));
                    }
                    let ghost mpre = self.map@;
                    self.map.push((name.clone(), vec![e]));
                    proof {
                        assert(self.map@.drop_last() =~= mpre);
                        assert(self.map@[self.map@.len() - 1].0@ == nm);
                        assert(self.map@[self.map@.len() - 1].1@ =~= seq![e]);
                    }
                },
            }
        }
        proof {
            assert forall|n: Seq<char>| #[trigger] counts.contains_key(n) implies
                map_index_of(m1, n) >= 0 || exists|j: int|
                norig <= j < self.map@.len() && (#[trigger] self.map@[j]).0@ == n
                by {
                let kk = crate::cache::cache_index_of(cm.key_seq(), n);
                crate::cache::lemma_cache_index_of(cm.key_seq(), n);
                assert(0 <= kk < kcnt);
                assert(cm.key_seq()[kk] == n);
            }
        }
    }

    /// Analyze one snapshot at `time` and record the outcome in the map,
    /// leaving the high-water mark alone. Fails, changing nothing, exactly
    /// when some dependent counter of the snapshot would not fit in 64
    /// bits.
    pub fn apply_snapshot(&mut self, snap: &IndexSnapshot, time: i64) -> (r: Result<
        (), AnalyzeError>)
        requires
            db_wf(*old(self)),
            old(self).update < time,
        ensures
            r is Ok <==> counts_bounded(snap@),
            final(self).update == old(self).update,
            r is Err ==> final(self).map@ == old(self).map@,
            r is Ok ==> db_map_wf(final(self).map@),
            r is Ok ==> db_view(*final(self)) == spec_apply_map(db_view(*old(self)),
                spec_snapshot_counts(snap@), time, snap.packages@.len() as u64),
            r is Ok ==> db_times_bounded(*final(self), time as int),
    {
        let cm_opt = compute_counts(snap);
        let cm = match cm_opt {
            Some(cm) => cm,
            None => {
                return Err(AnalyzeError::CountOverflow);
            },
        };
        let total: u64 = snap.packages.len() as u64;
        let ghost counts = cm.map_view();
        let ghost m0 = self.map@;
        let ghost norig = m0.len() as int;
        self.record_existing(&cm, time, total);
        let ghost m1 = self.map@;
        proof {
            assert forall|a: int, b: int| 0 <= a < b < m1.len() implies (
                #[trigger] m1[a]).0@ != (#[trigger] m1[b]).0@ by {
                assert(m1[a].0 == m0[a].0);
                assert(m1[b].0 == m0[b].0);
            }
        }
        self.append_new(&cm, time, total);
        proof {
            let mf = self.map@;
            assert forall|j: int| 0 <= j < norig implies (#[trigger] mf[j]).0@
                == m0[j].0@ && mf[j].1@ == spec_apply_entries(m0[j].1@,
                spec_entry_for(counts, m0[j].0@, time, total)) && entries_ok(mf[
                j].1@) && mf[j].1@.len() > 0 by {
                assert(mf[j] == m1[j]);
                assert(m1[j].0 == m0[j].0);
            }
            assert forall|j: int| norig <= j < mf.len() implies counts.contains_key(
                (#[trigger] mf[j]).0@) && map_index_of(m0, mf[j].0@) < 0 && mf[
                j].1@ == seq![spec_entry_for(counts, mf[j].0@, time, total)] by {
                assert(map_index_of(m1, mf[j].0@) < 0);
                lemma_map_index_of(m1, mf[j].0@);
                assert forall|jj: int| 0 <= jj < norig implies (#[trigger] m0[
                    jj]).0@ != mf[j].0@ by {
                    assert(m1[jj].0 == m0[jj].0);
                }
                lemma_map_index_miss(m0, mf[j].0@);
            }
            assert forall|n: Seq<char>| #[trigger] counts.contains_key(n) implies
                map_index_of(m0, n) >= 0 || exists|j: int|
                norig <= j < mf.len() && (#[trigger] mf[j]).0@ == n by {
                if map_index_of(m1, n) >= 0 {
                    lemma_map_index_of(m1, n);
                    let j1 = map_index_of(m1, n);
                    assert(m1[j1].0 == m0[j1].0);
                    lemma_map_index_exists(m0, n, j1);
                }
            }
            assert forall|j: int, q: int|
                0 <= j < norig && 0 <= q < mf[j].1@.len() implies #[trigger] mf[
                j].1@[q].time <= time by {
                assert(mf[j] == m1[j]);
            }
            lemma_apply_final(m0, mf, counts, time, total, norig);
        }
        Ok(())
    }

    /// Record one snapshot and advance the high-water mark to its time:
    /// the per-commit step of a history update run.
    pub fn record_snapshot(&mut self, snap: &IndexSnapshot, time: i64) -> (r: Result<
        (), AnalyzeError>)
        requires
            db_wf(*old(self)),
            old(self).update < time,
        ensures
            r is Ok <==> counts_bounded(snap@),
            r is Err ==> final(self).map@ == old(self).map@ && final(self).update
                == old(self).update,
            r is Ok ==> db_wf(*final(self)),
            r is Ok ==> final(self).update == time,
            r is Ok ==> db_view(*final(self)) == spec_apply_map(db_view(*old(self)),
                spec_snapshot_counts(snap@), time, snap.packages@.len() as u64),
    {
        let step = self.apply_snapshot(snap, time);
        match step {
            Ok(()) => {
                self.update = time;
                Ok(())
            },
            Err(e) => Err(e),
        }
    }
}

} // verus!
