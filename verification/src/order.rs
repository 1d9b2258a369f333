//! Lexicographic order on names, and sorting a list of unique names.

use vstd::prelude::*;
use vstd::utf8::char_u32_cast;

verus! {

/// Lexicographic order on character sequences, by code point.
pub open spec fn chars_le(a: Seq<char>, b: Seq<char>) -> bool
    decreases a.len(),
{
    if a.len() == 0 {
        true
    } else if b.len() == 0 {
        false
    } else if a[0] == b[0] {
        chars_le(a.drop_first(), b.drop_first())
    } else {
        (a[0] as u32) < (b[0] as u32)
    }
}

/// The order is total.
pub proof fn lemma_chars_le_total(a: Seq<char>, b: Seq<char>)
    ensures
        chars_le(a, b) || chars_le(b, a),
    decreases a.len(),
{
    if a.len() > 0 && b.len() > 0 {
        if a[0] == b[0] {
            lemma_chars_le_total(a.drop_first(), b.drop_first());
        } else {
            char_u32_cast(a[0], a[0] as u32);
            char_u32_cast(b[0], b[0] as u32);
            assert((a[0] as u32) != (b[0] as u32));
        }
    }
}

/// The order is transitive.
pub proof fn lemma_chars_le_trans(a: Seq<char>, b: Seq<char>, c: Seq<char>)
    requires
        chars_le(a, b),
        chars_le(b, c),
    ensures
        chars_le(a, c),
    decreases a.len(),
{
    if a.len() > 0 && b.len() > 0 && c.len() > 0 && a[0] == b[0] && b[0] == c[0] {
        lemma_chars_le_trans(a.drop_first(), b.drop_first(), c.drop_first());
    }
}

/// The order is antisymmetric.
pub proof fn lemma_chars_le_antisym(a: Seq<char>, b: Seq<char>)
    requires
        chars_le(a, b),
        chars_le(b, a),
    ensures
        a == b,
    decreases a.len(),
{
    if a.len() > 0 && b.len() > 0 && a[0] == b[0] {
        lemma_chars_le_antisym(a.drop_first(), b.drop_first());
        assert(a =~= seq![a[0]] + a.drop_first());
        assert(b =~= seq![b[0]] + b.drop_first());
    } else {
        assert(a.len() == 0 && b.len() == 0);
        assert(a =~= b);
    }
}

/// Compare two names, mirroring `chars_le`.
#[verifier::loop_isolation(false)]
pub fn string_le(a: &String, b: &String) -> (r: bool)
    ensures
        r == chars_le(a@, b@),
{
    let la = a.as_str().unicode_len();
    let lb = b.as_str().unicode_len();
    let min = if la < lb {
        la
    } else {
        lb
    };
    proof {
        assert(a@.skip(0) =~= a@);
        assert(b@.skip(0) =~= b@);
    }
    for i in 0..min
        invariant
            min <= la && min <= lb,
            la == a@.len(),
            lb == b@.len(),
            chars_le(a@, b@) == chars_le(a@.skip(i as int), b@.skip(i as int)),
    {
        let ca = a.as_str().get_char(i);
        let cb = b.as_str().get_char(i);
        proof {
            assert(a@.skip(i as int)[0] == a@[i as int]);
            assert(b@.skip(i as int)[0] == b@[i as int]);
            assert(a@.skip(i as int).drop_first() =~= a@.skip(i + 1));
            assert(b@.skip(i as int).drop_first() =~= b@.skip(i + 1));
        }
        if ca != cb {
            return (ca as u32) < (cb as u32);
        }
    }
    proof {
        if la <= lb {
            assert(a@.skip(min as int).len() == 0);
        } else {
            assert(b@.skip(min as int).len() == 0);
            assert(a@.skip(min as int).len() > 0);
        }
    }
    la <= lb
}

/// Whether a name list is sorted, with each name at most once.
pub open spec fn names_sorted(s: Seq<Seq<char>>) -> bool {
    forall|i: int, j: int|
        0 <= i < j < s.len() ==> chars_le(#[trigger] s[i], #[trigger] s[j]) && s[i]
            != s[j]
}

/// Sort a list of distinct names, keeping exactly the same name set.
#[verifier::loop_isolation(false)]
pub fn sort_names(input: &Vec<String>) -> (out: Vec<String>)
    requires
        crate::names::names_view(input@).no_duplicates(),
    ensures
        names_sorted(crate::names::names_view(out@)),
        crate::names::names_view(out@).to_set() =~= crate::names::names_view(
            input@).to_set(),
        out@.len() == input@.len(),
{
    let mut out: Vec<String> = Vec::new();
    let n = input.len();
    proof {
        assert(crate::names::names_view(out@) =~= Seq::<Seq<char>>::empty());
    }
    for i in 0..n
        invariant
            n == input@.len(),
            out@.len() == i,
            names_sorted(crate::names::names_view(out@)),
            crate::names::names_view(out@).to_set() =~= crate::names::names_view(
                input@).take(i as int).to_set(),
    {
        let ghost ov = crate::names::names_view(out@);
        let ghost nv = input@[i as int]@;
        let elem = input[i].clone();
        proof {
            assert(elem@ == crate::names::names_view(input@)[i as int]);
            assert(!ov.to_set().contains(nv)) by {
                if ov.to_set().contains(nv) {
                    assert(crate::names::names_view(input@).take(i as int).contains(
                        nv));
                    let j = choose|j: int|
                        0 <= j < i && crate::names::names_view(input@).take(i
                            as int)[j] == nv;
                    assert(crate::names::names_view(input@)[j] == nv);
                }
            }
        }
        let m = out.len();
        let mut p: usize = 0;
        while p < m
            invariant
                m == out@.len(),
                p <= m,
                forall|q: int|
                    0 <= q < p ==> chars_le(#[trigger] crate::names::names_view(
                    out@)[q], nv),
            decreases m - p,
        {
            if string_le(&elem, &out[p]) {
                break;
            }
            proof {
                lemma_chars_le_total(nv, crate::names::names_view(out@)[p as int]);
            }
            p = p + 1;
        }
        proof {
            assert(forall|q: int|
                0 <= q < p ==> chars_le(#[trigger] ov[q], nv));
            if p < m {
                assert(chars_le(nv, ov[p as int]));
            }
        }
        out.insert(p, elem);
        proof {
            let ov2 = crate::names::names_view(out@);
            assert(ov2 =~= ov.insert(p as int, nv));
            assert forall|x: int, y: int|
                0 <= x < y < ov2.len() implies chars_le(#[trigger] ov2[x],
                #[trigger] ov2[y]) && ov2[x] != ov2[y] by {
                if x < p && y < p {
                    assert(ov2[x] == ov[x] && ov2[y] == ov[y]);
                } else if x < p && y == p {
                    assert(ov2[x] == ov[x] && ov2[y] == nv);
                    assert(ov.to_set().contains(ov[x]));
                } else if x < p && y > p {
                    assert(ov2[x] == ov[x] && ov2[y] == ov[y - 1]);
                } else if x == p {
                    assert(ov2[x] == nv && ov2[y] == ov[y - 1]);
                    if (p as int) < y - 1 {
                        assert(chars_le(ov[p as int], ov[y - 1]));
                        lemma_chars_le_trans(nv, ov[p as int], ov[y - 1]);
                    } else {
                        assert(y - 1 == p as int);
                        assert(chars_le(nv, ov[y - 1]));
                    }
                    assert(ov.to_set().contains(ov[y - 1]));
                } else {
                    assert(ov2[x] == ov[x - 1] && ov2[y] == ov[y - 1]);
                }
            }
            assert(crate::names::names_view(input@).take(i + 1) =~=
                crate::names::names_view(input@).take(i as int).push(nv));
            crate::names::names_view(input@).take(i as int).lemma_push_to_set_commute(
                nv);
            assert forall|x: Seq<char>| ov2.to_set().contains(x) implies
                ov.to_set().contains(x) || x == nv by {
                let j = choose|j: int| 0 <= j < ov2.len() && ov2[j] == x;
                if j < p {
                    assert(ov[j] == x);
                } else if j > p {
                    assert(ov[j - 1] == x);
                }
            }
            assert forall|x: Seq<char>| ov.to_set().contains(x) || x == nv implies
                ov2.to_set().contains(x) by {
                if x == nv {
                    assert(ov2[p as int] == x);
                } else {
                    let j = choose|j: int| 0 <= j < ov.len() && ov[j] == x;
                    if j < p {
                        assert(ov2[j] == x);
                    } else {
                        assert(ov2[j + 1] == x);
                    }
                }
            }
            assert(ov2.to_set() =~= ov.to_set().insert(nv));
        }
    }
    proof {
        assert(crate::names::names_view(input@).take(n as int) =~=
            crate::names::names_view(input@));
    }
    out
}

} // verus!
