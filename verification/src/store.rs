//! The time-series store: per-package history of dependent counts.

use vstd::prelude::*;

verus! {

/// One historical data point for a package: the sample time (epoch seconds),
/// how many packages depend on it directly and transitively, and how large
/// the index was at that time.
#[derive(Clone, Copy, PartialEq, Eq, Structural, Debug)]
pub struct Entry {
    pub time: i64,
    pub direct_dependents: u64,
    pub transitive_dependents: u64,
    pub total_crates: u64,
}

/// The persistent store: a high-water-mark timestamp plus a mapping from
/// package name to its history, ordered by ascending time.
pub struct Db {
    pub update: i64,
    pub map: Vec<(String, Vec<Entry>)>,
}

/// Header of the on-disk layout: the high-water mark and the content digest
/// of each chunk, in load order.
pub struct DbHeader {
    pub update: i64,
    pub hash: Vec<String>,
}

/// One chunk of flattened (name, entry) pairs.
pub struct DbChunk {
    pub data: Vec<(String, Entry)>,
}

/// A history list is well formed when its times are nonnegative and strictly
/// increasing and no two adjacent entries carry the same pair of counts
/// (the history is run-length-compressed by construction).
pub open spec fn entries_ok(es: Seq<Entry>) -> bool {
    &&& forall|i: int| 0 <= i < es.len() ==> 0 <= (#[trigger] es[i]).time
    &&& forall|i: int|
        0 <= i < es.len() - 1 ==> (#[trigger] es[i]).time < es[i + 1].time
    &&& forall|i: int|
        0 <= i < es.len() - 1 ==> !((#[trigger] es[i]).direct_dependents
            == es[i + 1].direct_dependents && es[i].transitive_dependents == es[i
            + 1].transitive_dependents)
}

/// The map part of the store is well formed: names are unique, every history
/// is nonempty and well formed.
pub open spec fn db_map_wf(m: Seq<(String, Vec<Entry>)>) -> bool {
    &&& forall|i: int, j: int|
        0 <= i < j < m.len() ==> (#[trigger] m[i]).0@ != (#[trigger] m[j]).0@
    &&& forall|i: int| 0 <= i < m.len() ==> entries_ok((#[trigger] m[i]).1@)
    &&& forall|i: int| 0 <= i < m.len() ==> (#[trigger] m[i]).1@.len() > 0
}

/// Every recorded time is bounded by the high-water mark.
pub open spec fn db_times_bounded(db: Db, bound: int) -> bool {
    forall|i: int, k: int|
        0 <= i < db.map@.len() && 0 <= k < (#[trigger] db.map@[i]).1@.len()
            ==> #[trigger] db.map@[i].1@[k].time <= bound
}

/// Full well-formedness of the store.
pub open spec fn db_wf(db: Db) -> bool {
    &&& 0 <= db.update
    &&& db_map_wf(db.map@)
    &&& db_times_bounded(db, db.update as int)
}

/// Index of the entry for `name` in a map sequence, or -1 if absent.
/// Under `db_map_wf` the match, if any, is unique.
pub open spec fn map_index_of(m: Seq<(String, Vec<Entry>)>, name: Seq<char>) -> int
    decreases m.len(),
{
    if m.len() == 0 {
        -1
    } else if m[0].0@ == name {
        0
    } else {
        let r = map_index_of(m.drop_first(), name);
        if r < 0 {
            -1
        } else {
            r + 1
        }
    }
}

/// The mathematical content of a map sequence: package name to history.
pub open spec fn map_as_map(m: Seq<(String, Vec<Entry>)>) -> Map<Seq<char>, Seq<Entry>> {
    Map::new(
        |name: Seq<char>| map_index_of(m, name) >= 0,
        |name: Seq<char>| m[map_index_of(m, name)].1@,
    )
}

/// The mathematical content of the whole store.
pub open spec fn db_view(db: Db) -> Map<Seq<char>, Seq<Entry>> {
    map_as_map(db.map@)
}

/// `map_index_of` returns either -1 or a valid index holding `name`.
pub proof fn lemma_map_index_of(m: Seq<(String, Vec<Entry>)>, name: Seq<char>)
    ensures
        map_index_of(m, name) >= 0 ==> map_index_of(m, name) < m.len()
            && m[map_index_of(m, name)].0@ == name && forall|i: int|
            0 <= i < map_index_of(m, name) ==> (#[trigger] m[i]).0@ != name,
        map_index_of(m, name) < 0 ==> forall|i: int|
            0 <= i < m.len() ==> (#[trigger] m[i]).0@ != name,
    decreases m.len(),
{
    if m.len() > 0 && m[0].0@ != name {
        lemma_map_index_of(m.drop_first(), name);
        assert(forall|i: int|
            1 <= i < m.len() ==> m.drop_first()[i - 1] == #[trigger] m[i]);
    }
}

impl Db {
    /// A fresh store: epoch high-water mark, no history.
    pub fn new() -> (db: Db)
        ensures
            db.update == 0,
            db.map@.len() == 0,
            db_wf(db),
            db_view(db) =~= Map::<Seq<char>, Seq<Entry>>::empty(),
    {
        let db = Db { update: 0, map: Vec::new() };
        proof {
            lemma_map_index_of(db.map@, Seq::<char>::empty());
        }
        db
    }
}

impl Db {
    /// Whether the store is well formed: nonnegative high-water mark,
    /// unique names, and per name a nonempty compressed history of
    /// strictly increasing times bounded by the high-water mark.
    #[verifier::loop_isolation(false)]
    #[verifier::rlimit(100)]
    #[verifier::spinoff_prover]
    pub fn check_wf(&self) -> (r: bool)
        ensures
            r == db_wf(*self),
    {
        if self.update < 0 {
            return false;
        }
        let n = self.map.len();
        for i in 0..n
            invariant
                n == self.map@.len(),
                forall|a: int, b: int|
                    0 <= a < b < n && a < i ==> (#[trigger] self.map@[a]).0@ != (
                    #[trigger] self.map@[b]).0@,
                forall|a: int|
                    0 <= a < i ==> entries_ok((#[trigger] self.map@[a]).1@)
                        && (#[trigger] self.map@[a]).1@.len() > 0,
                forall|a: int, k: int|
                    0 <= a < i && 0 <= k < self.map@[a].1@.len()
                        ==> #[trigger] self.map@[a].1@[k].time <= self.update,
        {
            for j in i + 1..n
                invariant
                    i < j <= n,
                    forall|b: int|
                        i < b < j ==> (#[trigger] self.map@[b]).0@ != self.map@[
                        i as int].0@,
            {
                if self.map[i].0 == self.map[j].0 {
                    return false;
                }
            }
            let m = self.map[i].1.len();
            if m == 0 {
                return false;
            }
            for k in 0..m
                invariant
                    m == self.map@[i as int].1@.len(),
                    forall|q: int|
                        0 <= q < k ==> 0 <= (#[trigger] self.map@[i as int].1@[
                        q]).time <= self.update,
                    forall|q: int|
                        0 <= q < k - 1 ==> (#[trigger] self.map@[i as int].1@[
                        q]).time < self.map@[i as int].1@[q + 1].time && !((
                        #[trigger] self.map@[i as int].1@[q]).direct_dependents
                            == self.map@[i as int].1@[q + 1].direct_dependents
                            && self.map@[i as int].1@[q].transitive_dependents
                            == self.map@[i as int].1@[q + 1].transitive_dependents),
            {
                let e = self.map[i].1[k];
                if e.time < 0 || e.time > self.update {
                    return false;
                }
                if k > 0 {
                    let p = self.map[i].1[k - 1];
                    if !(p.time < e.time) {
                        return false;
                    }
                    if p.direct_dependents == e.direct_dependents
                        && p.transitive_dependents == e.transitive_dependents {
                        return false;
                    }
                }
            }
        }
        true
    }
}

/// Find the position of `name` in the map, mirroring `map_index_of`.
pub fn map_find(m: &Vec<(String, Vec<Entry>)>, name: &String) -> (r: Option<usize>)
    ensures
        match r {
            Some(i) => map_index_of(m@, name@) == i as int && i < m@.len()
                && m@[i as int].0@ == name@,
            None => map_index_of(m@, name@) < 0,
        },
{
    let n = m.len();
    for i in 0..n
        invariant
            n == m@.len(),
            forall|j: int| 0 <= j < i ==> (#[trigger] m@[j]).0@ != name@,
    {
        if m[i].0 == *name {
            proof {
                lemma_index_of_prefix(m@, name@, i as int);
            }
            return Some(i);
        }
    }
    proof {
        lemma_map_index_of(m@, name@);
        if map_index_of(m@, name@) >= 0 {
            assert(m@[map_index_of(m@, name@)].0@ == name@);
        }
    }
    None
}

/// When some position holds `name`, the index is nonnegative.
pub proof fn lemma_map_index_exists(m: Seq<(String, Vec<Entry>)>, name: Seq<char>, i: int)
    requires
        0 <= i < m.len(),
        m[i].0@ == name,
    ensures
        map_index_of(m, name) >= 0,
    decreases i,
{
    if m[0].0@ != name {
        lemma_map_index_exists(m.drop_first(), name, i - 1);
    }
}

/// When every position misses, the index is -1.
pub proof fn lemma_map_index_miss(m: Seq<(String, Vec<Entry>)>, name: Seq<char>)
    requires
        forall|i: int| 0 <= i < m.len() ==> (#[trigger] m[i]).0@ != name,
    ensures
        map_index_of(m, name) < 0,
    decreases m.len(),
{
    if m.len() > 0 {
        lemma_map_index_miss(m.drop_first(), name);
    }
}

/// Replacing the history at one position updates the map content at its
/// key alone.
pub proof fn lemma_map_update_view(
    m0: Seq<(String, Vec<Entry>)>,
    m1: Seq<(String, Vec<Entry>)>,
    i: int,
)
    requires
        0 <= i < m0.len(),
        m1.len() == m0.len(),
        forall|j: int| 0 <= j < m0.len() && j != i ==> m1[j] == m0[j],
        m1[i].0@ == m0[i].0@,
        forall|a: int, b: int|
            0 <= a < b < m0.len() ==> (#[trigger] m0[a]).0@ != (#[trigger] m0[b]).0@,
    ensures
        map_as_map(m1) =~= map_as_map(m0).insert(m0[i].0@, m1[i].1@),
{
    let key = m0[i].0@;
    assert forall|n: Seq<char>|
        #[trigger] map_as_map(m1).contains_key(n) || map_as_map(m0).insert(key,
        m1[i].1@).contains_key(n) implies map_as_map(m1).contains_key(n)
        == map_as_map(m0).insert(key, m1[i].1@).contains_key(n) && (map_as_map(
        m1).contains_key(n) ==> map_as_map(m1)[n] == map_as_map(m0).insert(key,
        m1[i].1@)[n]) by {
        lemma_map_index_of(m0, n);
        lemma_map_index_of(m1, n);
        let j0 = map_index_of(m0, n);
        if j0 >= 0 {
            assert(m1[j0].0@ == n);
            assert(forall|j: int| 0 <= j < j0 ==> (#[trigger] m1[j]).0@ != n);
            lemma_index_of_prefix(m1, n, j0);
            if n == key {
                assert(j0 == i) by {
                    if j0 != i {
                        assert(m0[j0].0@ == key);
                    }
                }
            } else {
                assert(j0 != i);
                assert(m1[j0] == m0[j0]);
            }
        } else {
            assert(forall|j: int| 0 <= j < m1.len() ==> (#[trigger] m1[j]).0@ != n);
            lemma_map_index_miss(m1, n);
        }
    }
}

/// Pushing a pair with a fresh key inserts its content.
pub proof fn lemma_map_push_view(
    m0: Seq<(String, Vec<Entry>)>,
    m1: Seq<(String, Vec<Entry>)>,
    name: Seq<char>,
)
    requires
        m1.len() == m0.len() + 1,
        forall|j: int| 0 <= j < m0.len() ==> m1[j] == m0[j],
        m1[m0.len() as int].0@ == name,
        map_index_of(m0, name) < 0,
    ensures
        map_as_map(m1) =~= map_as_map(m0).insert(name, m1[m0.len() as int].1@),
{
    lemma_map_index_of(m0, name);
    assert forall|n: Seq<char>|
        #[trigger] map_as_map(m1).contains_key(n) || map_as_map(m0).insert(name,
        m1[m0.len() as int].1@).contains_key(n) implies map_as_map(
        m1).contains_key(n) == map_as_map(m0).insert(name,
        m1[m0.len() as int].1@).contains_key(n) && (map_as_map(m1).contains_key(n)
        ==> map_as_map(m1)[n] == map_as_map(m0).insert(name,
        m1[m0.len() as int].1@)[n]) by {
        lemma_map_index_of(m0, n);
        lemma_map_index_of(m1, n);
        let j0 = map_index_of(m0, n);
        if j0 >= 0 {
            assert(m1[j0].0@ == n);
            assert(forall|j: int| 0 <= j < j0 ==> (#[trigger] m1[j]).0@ != n);
            lemma_index_of_prefix(m1, n, j0);
        } else if n == name {
            assert(forall|j: int| 0 <= j < m0.len() ==> (#[trigger] m1[j]).0@ != n);
            lemma_index_of_prefix(m1, n, m0.len() as int);
        } else {
            assert(forall|j: int| 0 <= j < m1.len() ==> (#[trigger] m1[j]).0@ != n);
            lemma_map_index_miss(m1, n);
        }
    }
}

/// A well-formed history stays well formed when an entry with a later
/// time and different counts is appended.
pub proof fn lemma_entries_push(es: Seq<Entry>, e: Entry)
    requires
        entries_ok(es),
        0 <= e.time,
        es.len() > 0 ==> es.last().time < e.time,
        es.len() > 0 ==> !(es.last().direct_dependents == e.direct_dependents
            && es.last().transitive_dependents == e.transitive_dependents),
    ensures
        entries_ok(es.push(e)),
{
    let ns = es.push(e);
    assert forall|i: int| 0 <= i < ns.len() implies 0 <= (#[trigger] ns[i]).time by {
        if i < es.len() {
            assert(ns[i] == es[i]);
        }
    }
    assert forall|i: int| 0 <= i < ns.len() - 1 implies (#[trigger] ns[i]).time < ns[i
        + 1].time by {
        if i < es.len() - 1 {
            assert(ns[i] == es[i]);
            assert(ns[i + 1] == es[i + 1]);
        } else {
            assert(ns[i] == es.last());
            assert(ns[i + 1] == e);
        }
    }
    assert forall|i: int| 0 <= i < ns.len() - 1 implies !((#[trigger] ns[i]).direct_dependents
        == ns[i + 1].direct_dependents && ns[i].transitive_dependents == ns[i
        + 1].transitive_dependents) by {
        if i < es.len() - 1 {
            assert(ns[i] == es[i]);
            assert(ns[i + 1] == es[i + 1]);
        } else {
            assert(ns[i] == es.last());
            assert(ns[i + 1] == e);
        }
    }
}

/// Append one entry to the history at position `i`.
pub fn map_append_at(m: &mut Vec<(String, Vec<Entry>)>, i: usize, e: Entry)
    requires
        i < old(m)@.len(),
    ensures
        final(m)@.len() == old(m)@.len(),
        forall|j: int|
            0 <= j < old(m)@.len() && j != i ==> final(m)@[j] == old(m)@[j],
        final(m)@[i as int].0 == old(m)@[i as int].0,
        final(m)@[i as int].1@ == old(m)@[i as int].1@.push(e),
{
    let key = m[i].0.clone();
    let mut es = m[i].1.clone();
    proof {
        assert(es@ =~= old(m)@[i as int].1@);
    }
    es.push(e);
    m.set(i, (key, es));
}

/// If every position before `i` misses and position `i` hits, the first
/// match is at `i`.
pub proof fn lemma_index_of_prefix(m: Seq<(String, Vec<Entry>)>, name: Seq<char>, i: int)
    requires
        0 <= i < m.len(),
        m[i].0@ == name,
        forall|j: int| 0 <= j < i ==> (#[trigger] m[j]).0@ != name,
    ensures
        map_index_of(m, name) == i,
    decreases i,
{
    if i > 0 {
        lemma_index_of_prefix(m.drop_first(), name, i - 1);
    }
}

} // verus!
