//! The feature resolver: expands an enabled-feature set over a feature
//! table into the list of activated optional-dependency names.

use vstd::prelude::*;
use crate::names::NameSet;
use crate::names::names_view;

verus! {

/// Depth budget for feature expansion: a hard ceiling that guarantees
/// termination even on a cyclic feature table.
pub const FEATURE_DEPTH: usize = 100;

/// The view of an executable feature table.
pub open spec fn ft_view(features: Seq<(String, Vec<String>)>) -> Seq<
    (Seq<char>, Seq<Seq<char>>)> {
    features.map_values(
        |p: (String, Vec<String>)| (p.0@, p.1@.map_values(|s: String| s@)),
    )
}

/// The expansion tokens of `name` in the table: the first entry wins.
pub open spec fn spec_feat_lookup(
    tbl: Seq<(Seq<char>, Seq<Seq<char>>)>,
    name: Seq<char>,
) -> Option<Seq<Seq<char>>>
    decreases tbl.len(),
{
    if tbl.len() == 0 {
        None
    } else if tbl[0].0 == name {
        Some(tbl[0].1)
    } else {
        spec_feat_lookup(tbl.drop_first(), name)
    }
}

/// Expansion of a list of enabled names. Each name not yet in `checked` is
/// marked and, when the table lists it, its tokens are expanded in order.
/// Returns the emitted names and the grown `checked` set.
pub open spec fn spec_expand_names(
    tbl: Seq<(Seq<char>, Seq<Seq<char>>)>,
    names: Seq<Seq<char>>,
    depth: nat,
    checked: Set<Seq<char>>,
) -> (Seq<Seq<char>>, Set<Seq<char>>)
    decreases depth, 1int, names.len(),
{
    if names.len() == 0 {
        (Seq::empty(), checked)
    } else {
        let n = names[0];
        if checked.contains(n) {
            spec_expand_names(tbl, names.drop_first(), depth, checked)
        } else {
            let checked1 = checked.insert(n);
            match spec_feat_lookup(tbl, n) {
                Option::None => spec_expand_names(tbl, names.drop_first(), depth, checked1),
                Option::Some(tokens) => {
                    let r1 = spec_expand_tokens(tbl, tokens, depth, checked1);
                    let r2 = spec_expand_names(tbl, names.drop_first(), depth, r1.1);
                    (r1.0 + r2.0, r2.1)
                },
            }
        }
    }
}

/// Expansion of one entry's token list. A token expands to its own
/// recursive expansion; when the depth budget is exhausted or the expansion
/// comes back empty, the token itself is emitted instead.
pub open spec fn spec_expand_tokens(
    tbl: Seq<(Seq<char>, Seq<Seq<char>>)>,
    tokens: Seq<Seq<char>>,
    depth: nat,
    checked: Set<Seq<char>>,
) -> (Seq<Seq<char>>, Set<Seq<char>>)
    decreases depth, 0int, tokens.len(),
{
    if tokens.len() == 0 {
        (Seq::empty(), checked)
    } else {
        let t = tokens[0];
        let r1 = if depth == 0 {
            (Seq::<Seq<char>>::empty(), checked)
        } else {
            spec_expand_names(tbl, seq![t], (depth - 1) as nat, checked)
        };
        let emitted = if r1.0.len() == 0 {
            seq![t]
        } else {
            r1.0
        };
        let r2 = spec_expand_tokens(tbl, tokens.drop_first(), depth, r1.1);
        (emitted + r2.0, r2.1)
    }
}

/// Find `name` in the executable table, mirroring `spec_feat_lookup`.
fn feat_find(features: &Vec<(String, Vec<String>)>, name: &String) -> (r: Option<usize>)
    ensures
        match r {
            Some(k) => k < features@.len() && spec_feat_lookup(ft_view(features@), name@)
                == Some(ft_view(features@)[k as int].1),
            None => spec_feat_lookup(ft_view(features@), name@) is None,
        },
{
    let n = features.len();
    for i in 0..n
        invariant
            n == features@.len(),
            forall|j: int| 0 <= j < i ==> ft_view(features@)[j].0 != name@,
    {
        assert(ft_view(features@)[i as int].0 == features@[i as int].0@);
        if features[i].0 == *name {
            proof {
                lemma_feat_find_prefix(ft_view(features@), name@, i as int);
            }
            return Some(i);
        }
    }
    proof {
        lemma_feat_find_miss(ft_view(features@), name@);
    }
    None
}

/// A hit at `i` after misses before `i` makes `i` the first match.
proof fn lemma_feat_find_prefix(tbl: Seq<(Seq<char>, Seq<Seq<char>>)>, name: Seq<char>, i: int)
    requires
        0 <= i < tbl.len(),
        tbl[i].0 == name,
        forall|j: int| 0 <= j < i ==> tbl[j].0 != name,
    ensures
        spec_feat_lookup(tbl, name) == Some(tbl[i].1),
    decreases i,
{
    if i > 0 {
        lemma_feat_find_prefix(tbl.drop_first(), name, i - 1);
    }
}

/// When no entry holds `name`, the lookup misses.
proof fn lemma_feat_find_miss(tbl: Seq<(Seq<char>, Seq<Seq<char>>)>, name: Seq<char>)
    requires
        forall|j: int| 0 <= j < tbl.len() ==> tbl[j].0 != name,
    ensures
        spec_feat_lookup(tbl, name) is None,
    decreases tbl.len(),
{
    if tbl.len() > 0 {
        lemma_feat_find_miss(tbl.drop_first(), name);
    }
}

/// Expand the enabled feature names over the feature table, emitting the
/// activated names in order. `checked` is shared across the whole
/// expansion call tree and prevents redundant work; the depth budget makes
/// the expansion terminate even on a cyclic table.
pub fn gather_enabled_dependencies(
    features: &Vec<(String, Vec<String>)>,
    enabled_features: &Vec<String>,
    max_depth: usize,
    checked: &mut NameSet,
) -> (ret: Vec<String>)
    requires
        old(checked).wf(),
    ensures
        final(checked).wf(),
        names_view(ret@) == spec_expand_names(
            ft_view(features@),
            names_view(enabled_features@),
            max_depth as nat,
            old(checked).set_view(),
        ).0,
        final(checked).set_view() == spec_expand_names(
            ft_view(features@),
            names_view(enabled_features@),
            max_depth as nat,
            old(checked).set_view(),
        ).1,
    decreases max_depth,
{
    let ghost tbl = ft_view(features@);
    let ghost all = names_view(enabled_features@);
    let ghost c0 = checked.set_view();
    let ghost dd = max_depth as nat;
    let mut ret: Vec<String> = Vec::new();
    proof {
        assert(all.skip(0) =~= all);
        assert(names_view(ret@) =~= Seq::<Seq<char>>::empty());
        assert(names_view(ret@) + spec_expand_names(tbl, all, dd, c0).0 =~=
            spec_expand_names(tbl, all, dd, c0).0);
    }
    let n = enabled_features.len();
    for i in 0..n
        invariant
            n == enabled_features@.len(),
            all == names_view(enabled_features@),
            all.len() == n,
            tbl == ft_view(features@),
            dd == max_depth as nat,
            checked.wf(),
            spec_expand_names(tbl, all, dd, c0).0 == names_view(ret@)
                + spec_expand_names(tbl, all.skip(i as int), dd, checked.set_view()).0,
            spec_expand_names(tbl, all, dd, c0).1 == spec_expand_names(tbl,
                all.skip(i as int), dd, checked.set_view()).1,
    {
        let ghost pending = all.skip(i as int);
        let ghost cpre = checked.set_view();
        proof {
            assert(pending[0] == all[i as int]);
            assert(all[i as int] == enabled_features@[i as int]@);
            assert(pending.drop_first() =~= all.skip(i + 1));
        }
        let enabled = &enabled_features[i];
        if !checked.contains(enabled) {
            checked.insert(enabled.clone());
            proof {
                assert(checked.set_view() =~= cpre.insert(enabled@));
            }
            match feat_find(features, enabled) {
                Some(k) => {
                    let ghost tokens = tbl[k as int].1;
                    let ghost cin = checked.set_view();
                    let ghost tfull = spec_expand_tokens(tbl, tokens, dd, cin);
                    let ghost ret_base = names_view(ret@);
                    let m = features[k].1.len();
                    proof {
                        assert(tokens == features@[k as int].1@.map_values(
                            |s: String| s@));
                        assert(tokens.len() == m);
                        assert(tokens.skip(0) =~= tokens);
                        assert(ret_base + tfull.0 =~= names_view(ret@)
                            + spec_expand_tokens(tbl, tokens.skip(0), dd,
                            checked.set_view()).0);
                    }
                    for j in 0..m
                        invariant
                            m == features@[k as int].1@.len(),
                            k < features@.len(),
                            max_depth as nat == dd,
                            tbl == ft_view(features@),
                            tokens == features@[k as int].1@.map_values(
                                |s: String| s@),
                            tokens.len() == m,
                            checked.wf(),
                            ret_base + tfull.0 == names_view(ret@)
                                + spec_expand_tokens(tbl, tokens.skip(j as int), dd,
                                checked.set_view()).0,
                            tfull.1 == spec_expand_tokens(tbl, tokens.skip(j as int),
                                dd, checked.set_view()).1,
                    {
                        let ghost pend_t = tokens.skip(j as int);
                        let ghost cnow = checked.set_view();
                        proof {
                            assert(pend_t[0] == tokens[j as int]);
                            assert(tokens[j as int] == features@[k as int].1@[j as int]@);
                            assert(pend_t.drop_first() =~= tokens.skip(j + 1));
                        }
                        let e = &features[k].1[j];
                        let ghost t = tokens[j as int];
                        let children: Vec<String> = if max_depth == 0 {
                            Vec::new()
                        } else {
                            let mut single: Vec<String> = Vec::new();
                            single.push(e.clone());
                            proof {
                                assert(names_view(single@) =~= seq![t]);
                            }
                            gather_enabled_dependencies(features, &single, max_depth
                                - 1, checked)
                        };
                        let ghost r1 = if dd == 0 {
                            (Seq::<Seq<char>>::empty(), cnow)
                        } else {
                            spec_expand_names(tbl, seq![t], (dd - 1) as nat, cnow)
                        };
                        proof {
                            assert(names_view(children@) =~= r1.0);
                            assert(checked.set_view() == r1.1);
                        }
                        if children.len() == 0 {
                            ret.push(e.clone());
                            proof {
                                assert(names_view(ret@) =~= names_view(ret@.drop_last())
                                    + seq![t]);
                            }
                        } else {
                            let mut ch = children;
                            let ghost ret_old = ret@;
                            ret.append(&mut ch);
                            proof {
                                assert(names_view(ret@) =~= names_view(ret_old)
                                    + r1.0);
                            }
                        }
                        proof {
                            assert(ret_base + tfull.0 =~= names_view(ret@)
                                + spec_expand_tokens(tbl, tokens.skip(j + 1), dd,
                                checked.set_view()).0);
                        }
                    }
                    proof {
                        assert(tokens.skip(m as int) =~= Seq::<Seq<char>>::empty());
                        assert(names_view(ret@) =~= ret_base + tfull.0);
                        assert(spec_expand_names(tbl, all, dd, c0).0 =~= names_view(ret@)
                            + spec_expand_names(tbl, all.skip(i + 1), dd,
                            checked.set_view()).0);
                    }
                },
                None => {
                },
            }
        }
    }
    proof {
        assert(all.skip(n as int) =~= Seq::<Seq<char>>::empty());
        assert(names_view(ret@) =~= names_view(ret@) + Seq::<Seq<char>>::empty());
    }
    ret
}

} // verus!
