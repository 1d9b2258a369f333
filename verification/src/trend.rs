//! Rankings read from the store: the most depended-on names, and trend
//! deltas between an oldest and the newest recorded entry.

use vstd::prelude::*;
use crate::names::names_view;
use crate::sampler::spec_day_of;
use crate::store::Db;
use crate::store::Entry;
use crate::store::db_map_wf;

verus! {

/// The views of a score list.
pub open spec fn scores_view(s: Seq<(i128, String)>) -> Seq<(i128, Seq<char>)> {
    s.map_values(|p: (i128, String)| (p.0, p.1@))
}

/// Stable insertion by score: a new element goes before the first
/// strictly larger score, after any equal one.
pub open spec fn spec_insert_score(s: Seq<(i128, Seq<char>)>, x: (i128, Seq<char>)) -> Seq<
    (i128, Seq<char>)>
    decreases s.len(),
{
    if s.len() == 0 {
        seq![x]
    } else if s[0].0 > x.0 {
        seq![x] + s
    } else {
        seq![s[0]] + spec_insert_score(s.drop_first(), x)
    }
}

/// Stable sort by ascending score: the elements inserted in order.
pub open spec fn spec_sort_scores(s: Seq<(i128, Seq<char>)>) -> Seq<(i128, Seq<char>)>
    decreases s.len(),
{
    if s.len() == 0 {
        Seq::empty()
    } else {
        spec_insert_score(spec_sort_scores(s.drop_last()), s.last())
    }
}

/// The names of the up-to-`n` largest scores, largest first: what popping
/// `n` times from the end of the stable sort yields.
pub open spec fn spec_top_n(s: Seq<(i128, Seq<char>)>, n: int) -> Seq<Seq<char>> {
    let sorted = spec_sort_scores(s);
    let k = if n <= sorted.len() {
        n
    } else {
        sorted.len() as int
    };
    sorted.skip(sorted.len() - k).reverse().map_values(|p: (i128, Seq<char>)| p.1)
}

/// The insertion point splits the list.
proof fn lemma_insert_score_at(s: Seq<(i128, Seq<char>)>, x: (i128, Seq<char>), p: int)
    requires
        0 <= p <= s.len(),
        forall|q: int| 0 <= q < p ==> !((#[trigger] s[q]).0 > x.0),
        p < s.len() ==> s[p].0 > x.0,
    ensures
        spec_insert_score(s, x) == s.take(p) + seq![x] + s.skip(p),
    decreases p,
{
    if s.len() == 0 {
        assert(spec_insert_score(s, x) =~= s.take(p) + seq![x] + s.skip(p));
    } else if p == 0 {
        assert(s.take(0) =~= Seq::<(i128, Seq<char>)>::empty());
        assert(s.skip(0) =~= s);
        assert(spec_insert_score(s, x) =~= s.take(0) + seq![x] + s.skip(0));
    } else {
        assert(!(s[0].0 > x.0));
        assert(forall|q: int|
            0 <= q < p - 1 ==> s.drop_first()[q] == #[trigger] s[q + 1]);
        lemma_insert_score_at(s.drop_first(), x, p - 1);
        assert(seq![s[0]] + (s.drop_first().take(p - 1) + seq![x]
            + s.drop_first().skip(p - 1)) =~= s.take(p) + seq![x] + s.skip(p));
    }
}

/// Insert one score into a sorted accumulator, mirroring
/// `spec_insert_score`.
#[verifier::loop_isolation(false)]
fn insert_score(out: &mut Vec<(i128, String)>, x: (i128, String))
    ensures
        scores_view(final(out)@) == spec_insert_score(scores_view(old(out)@), (x.0,
            x.1@)),
{
    let ghost ov = scores_view(out@);
    let ghost xv = (x.0, x.1@);
    let m = out.len();
    let mut p: usize = 0;
    while p < m
        invariant
            m == out@.len(),
            p <= m,
            forall|q: int| 0 <= q < p ==> !((#[trigger] ov[q]).0 > xv.0),
        decreases m - p,
    {
        if out[p].0 > x.0 {
            break;
        }
        p = p + 1;
    }
    proof {
        lemma_insert_score_at(ov, xv, p as int);
    }
    out.insert(p, x);
    proof {
        assert(scores_view(out@) =~= ov.take(p as int) + seq![xv] + ov.skip(
            p as int));
    }
}

/// Stable sort by ascending score, mirroring `spec_sort_scores`.
#[verifier::loop_isolation(false)]
pub fn sort_scores(scores: &Vec<(i128, String)>) -> (out: Vec<(i128, String)>)
    ensures
        scores_view(out@) == spec_sort_scores(scores_view(scores@)),
{
    let ghost sv = scores_view(scores@);
    let mut out: Vec<(i128, String)> = Vec::new();
    proof {
        assert(sv.take(0) =~= Seq::<(i128, Seq<char>)>::empty());
        assert(scores_view(out@) =~= spec_sort_scores(sv.take(0)));
    }
    let n = scores.len();
    for i in 0..n
        invariant
            n == scores@.len(),
            sv.len() == n,
            scores_view(out@) == spec_sort_scores(sv.take(i as int)),
    {
        let x = (scores[i].0, scores[i].1.clone());
        insert_score(&mut out, x);
        proof {
            assert(sv.take(i + 1).drop_last() =~= sv.take(i as int));
            assert(sv.take(i + 1).last() == sv[i as int]);
            assert((scores@[i as int].0, scores@[i as int].1@) == sv[i as int]);
        }
    }
    proof {
        assert(sv.take(n as int) =~= sv);
    }
    out
}

/// The names of the up-to-`n` largest scores, largest first, mirroring
/// `spec_top_n`. Equal scores leave in the reverse of their stable sorted
/// order.
#[verifier::loop_isolation(false)]
pub fn top_n_by_score(scores: &Vec<(i128, String)>, n: usize) -> (ret: Vec<String>)
    ensures
        names_view(ret@) == spec_top_n(scores_view(scores@), n as int),
{
    let mut sorted = sort_scores(scores);
    let ghost sv = scores_view(sorted@);
    let ghost ln = sv.len() as int;
    let mut ret: Vec<String> = Vec::new();
    proof {
        assert(names_view(ret@) =~= Seq::<Seq<char>>::empty());
        assert(sv.skip(ln).reverse().map_values(|p: (i128, Seq<char>)| p.1) =~= Seq::<
            Seq<char>>::empty());
    }
    for i in 0..n
        invariant
            sv == spec_sort_scores(scores_view(scores@)),
            ln == sv.len(),
            ret@.len() <= i,
            ret@.len() == (if i <= ln {
                i as int
            } else {
                ln
            }),
            scores_view(sorted@) == sv.take(ln - ret@.len()),
            names_view(ret@) == sv.skip(ln - ret@.len()).reverse().map_values(
                |p: (i128, Seq<char>)| p.1),
    {
        let ghost spre = sorted@;
        let ghost kpre = ret@.len() as int;
        let popped = sorted.pop();
        match popped {
            Some(top) => {
                let ghost rpre = ret@;
                ret.push(top.1);
                proof {
                    let k = ret@.len() as int;
                    assert(scores_view(spre) == sv.take(ln - kpre));
                    assert(spre.len() == ln - kpre);
                    assert((top.0, top.1@) == scores_view(spre)[spre.len() - 1]);
                    assert(scores_view(sorted@) =~= scores_view(spre).drop_last());
                    assert(scores_view(sorted@) =~= sv.take(ln - k));
                    assert((top.0, top.1@) == sv[ln - k]);
                    assert(names_view(ret@) =~= names_view(rpre).push(top.1@));
                    assert(sv.skip(ln - k).reverse() =~= sv.skip(ln - k
                        + 1).reverse().push(sv[ln - k]));
                    assert(names_view(rpre).push(top.1@) =~= sv.skip(ln
                        - k).reverse().map_values(|p: (i128, Seq<char>)| p.1));
                }
            },
            None => {
                proof {
                    assert(scores_view(sorted@).len() == 0);
                    assert(ret@.len() == ln);
                }
            },
        }
    }
    proof {
        let k = if n as int <= ln {
            n as int
        } else {
            ln
        };
        assert(ret@.len() == k);
    }
    ret
}

/// The newest-entry score of each recorded name: its direct or transitive
/// dependent count, in store order; names with an empty history are
/// skipped.
pub open spec fn spec_last_scores(m: Seq<(String, Vec<Entry>)>, transitive: bool) -> Seq<
    (i128, Seq<char>)>
    decreases m.len(),
{
    if m.len() == 0 {
        Seq::empty()
    } else {
        let head = if m[0].1@.len() > 0 {
            seq![(
                (if transitive {
                    m[0].1@.last().transitive_dependents
                } else {
                    m[0].1@.last().direct_dependents
                }) as i128,
                m[0].0@,
            )]
        } else {
            Seq::<(i128, Seq<char>)>::empty()
        };
        head + spec_last_scores(m.drop_first(), transitive)
    }
}

/// Score every recorded name by its newest entry, mirroring
/// `spec_last_scores`.
#[verifier::loop_isolation(false)]
pub fn last_scores(db: &Db, transitive: bool) -> (out: Vec<(i128, String)>)
    ensures
        scores_view(out@) == spec_last_scores(db.map@, transitive),
{
    let mut out: Vec<(i128, String)> = Vec::new();
    let n = db.map.len();
    proof {
        assert(db.map@.skip(0) =~= db.map@);
        assert(scores_view(out@) =~= Seq::<(i128, Seq<char>)>::empty());
        assert(scores_view(out@) + spec_last_scores(db.map@.skip(0), transitive)
            =~= spec_last_scores(db.map@, transitive));
    }
    for i in 0..n
        invariant
            n == db.map@.len(),
            spec_last_scores(db.map@, transitive) == scores_view(out@)
                + spec_last_scores(db.map@.skip(i as int), transitive),
    {
        let ghost pend = db.map@.skip(i as int);
        let ghost opre = scores_view(out@);
        proof {
            assert(pend[0] == db.map@[i as int]);
            assert(pend.drop_first() =~= db.map@.skip(i + 1));
        }
        let m = db.map[i].1.len();
        if m > 0 {
            let last = db.map[i].1[m - 1];
            let score: i128 = if transitive {
                last.transitive_dependents as i128
            } else {
                last.direct_dependents as i128
            };
            out.push((score, db.map[i].0.clone()));
            proof {
                assert(last == db.map@[i as int].1@.last());
                assert(scores_view(out@) =~= opre.push((score, db.map@[
                    i as int].0@)));
                assert(opre.push((score, db.map@[i as int].0@)) =~= opre + seq![(
                    score, db.map@[i as int].0@)]);
            }
        }
    }
    proof {
        assert(db.map@.skip(n as int) =~= Seq::<(String, Vec<Entry>)>::empty());
    }
    out
}

/// The most depended-on names, by newest direct-dependent count.
pub fn top_dependent_names(db: &Db, n: usize) -> (ret: Vec<String>)
    ensures
        names_view(ret@) == spec_top_n(spec_last_scores(db.map@, false), n as int),
{
    let scores = last_scores(db, false);
    top_n_by_score(&scores, n)
}

/// The most transitively depended-on names, by newest transitive count.
pub fn top_transitive_names(db: &Db, n: usize) -> (ret: Vec<String>)
    ensures
        names_view(ret@) == spec_top_n(spec_last_scores(db.map@, true), n as int),
{
    let scores = last_scores(db, true);
    top_n_by_score(&scores, n)
}

/// The entry a trend comparison starts from: the newest entry whose
/// calendar day lies before the window start, or the oldest entry when
/// none does or no window is given.
pub open spec fn spec_oldest_idx(es: Seq<Entry>, start_day: Option<i64>) -> int
    decreases es.len(),
{
    match start_day {
        Option::None => 0,
        Option::Some(sd) => if es.len() == 0 {
            0
        } else if spec_day_of(es.last().time as int) < sd {
            es.len() - 1
        } else {
            spec_oldest_idx(es.drop_last(), start_day)
        },
    }
}

/// The trend score of each recorded name: its newest count minus the
/// count at the window start.
pub open spec fn spec_trend_scores(
    m: Seq<(String, Vec<Entry>)>,
    start_day: Option<i64>,
    transitive: bool,
) -> Seq<(i128, Seq<char>)>
    decreases m.len(),
{
    if m.len() == 0 {
        Seq::empty()
    } else {
        let head = if m[0].1@.len() > 0 {
            let es = m[0].1@;
            let oldest = es[spec_oldest_idx(es, start_day)];
            let newest = es.last();
            let d_old = (if transitive {
                oldest.transitive_dependents
            } else {
                oldest.direct_dependents
            }) as i128;
            let d_new = (if transitive {
                newest.transitive_dependents
            } else {
                newest.direct_dependents
            }) as i128;
            seq![(((d_new - d_old)) as i128, m[0].0@)]
        } else {
            Seq::<(i128, Seq<char>)>::empty()
        };
        head + spec_trend_scores(m.drop_first(), start_day, transitive)
    }
}

/// Find the window-start entry, mirroring `spec_oldest_idx`.
#[verifier::loop_isolation(false)]
fn oldest_idx(es: &Vec<Entry>, start_day: Option<i64>) -> (r: usize)
    requires
        es@.len() > 0,
        forall|q: int| 0 <= q < es@.len() ==> 0 <= (#[trigger] es@[q]).time,
    ensures
        r as int == spec_oldest_idx(es@, start_day),
        r < es@.len(),
{
    match start_day {
        None => 0,
        Some(sd) => {
            let mut k = es.len();
            proof {
                assert(es@.take(k as int) =~= es@);
            }
            while k > 0
                invariant
                    k <= es@.len(),
                    spec_oldest_idx(es@, start_day) == spec_oldest_idx(es@.take(
                        k as int), start_day),
                decreases k,
            {
                proof {
                    assert(es@.take(k as int).last() == es@[k - 1]);
                    assert(es@.take(k as int).drop_last() =~= es@.take(k - 1));
                }
                let e = es[k - 1];
                if crate::sampler::day_of(e.time) < sd {
                    return k - 1;
                }
                k = k - 1;
            }
            proof {
                assert(es@.take(0) =~= Seq::<Entry>::empty());
            }
            0
        },
    }
}

/// Score every recorded name by its trend over the window, mirroring
/// `spec_trend_scores`.
#[verifier::loop_isolation(false)]
#[verifier::rlimit(100)]
#[verifier::spinoff_prover]
pub fn trend_scores(db: &Db, start_day: Option<i64>, transitive: bool) -> (out: Vec<
    (i128, String)>)
    requires
        db_map_wf(db.map@),
    ensures
        scores_view(out@) == spec_trend_scores(db.map@, start_day, transitive),
{
    let mut out: Vec<(i128, String)> = Vec::new();
    let n = db.map.len();
    proof {
        assert(db.map@.skip(0) =~= db.map@);
        assert(scores_view(out@) =~= Seq::<(i128, Seq<char>)>::empty());
        assert(scores_view(out@) + spec_trend_scores(db.map@.skip(0), start_day,
            transitive) =~= spec_trend_scores(db.map@, start_day, transitive));
    }
    for i in 0..n
        invariant
            n == db.map@.len(),
            spec_trend_scores(db.map@, start_day, transitive) == scores_view(out@)
                + spec_trend_scores(db.map@.skip(i as int), start_day, transitive),
    {
        let ghost pend = db.map@.skip(i as int);
        let ghost opre = scores_view(out@);
        proof {
            assert(pend[0] == db.map@[i as int]);
            assert(pend.drop_first() =~= db.map@.skip(i + 1));
        }
        let m = db.map[i].1.len();
        if m > 0 {
            let oi = oldest_idx(&db.map[i].1, start_day);
            let oldest = db.map[i].1[oi];
            let newest = db.map[i].1[m - 1];
            let d_old: i128 = if transitive {
                oldest.transitive_dependents as i128
            } else {
                oldest.direct_dependents as i128
            };
            let d_new: i128 = if transitive {
                newest.transitive_dependents as i128
            } else {
                newest.direct_dependents as i128
            };
            let delta: i128 = d_new - d_old;
            out.push((delta, db.map[i].0.clone()));
            proof {
                assert(newest == db.map@[i as int].1@.last());
                assert(oldest == db.map@[i as int].1@[spec_oldest_idx(db.map@[
                    i as int].1@, start_day)]);
                assert(scores_view(out@) =~= opre.push((delta, db.map@[
                    i as int].0@)));
                assert(opre.push((delta, db.map@[i as int].0@)) =~= opre + seq![(
                    delta, db.map@[i as int].0@)]);
            }
        }
    }
    proof {
        assert(db.map@.skip(n as int) =~= Seq::<(String, Vec<Entry>)>::empty());
    }
    out
}

} // verus!
