//! The per-snapshot memo cache: package name to its cached closure set.

use vstd::prelude::*;
use crate::names::NameSet;
use crate::names::name_seq_union;

verus! {

/// Memo cache of computed closures, keyed by package name alone. The key
/// order is the insertion order; keys are unique.
pub struct ClosureCache {
    pub entries: Vec<(String, NameSet)>,
}

/// The key views of a cache entry sequence.
pub open spec fn cache_keys(entries: Seq<(String, NameSet)>) -> Seq<Seq<char>> {
    entries.map_values(|p: (String, NameSet)| p.0@)
}

/// Index of `name` among the keys, or -1.
pub open spec fn cache_index_of(keys: Seq<Seq<char>>, name: Seq<char>) -> int
    decreases keys.len(),
{
    if keys.len() == 0 {
        -1
    } else if keys[0] == name {
        0
    } else {
        let r = cache_index_of(keys.drop_first(), name);
        if r < 0 {
            -1
        } else {
            r + 1
        }
    }
}

/// `cache_index_of` returns either -1 or a valid index holding `name`.
pub proof fn lemma_cache_index_of(keys: Seq<Seq<char>>, name: Seq<char>)
    ensures
        cache_index_of(keys, name) >= 0 ==> cache_index_of(keys, name) < keys.len()
            && keys[cache_index_of(keys, name)] == name && forall|i: int|
            0 <= i < cache_index_of(keys, name) ==> keys[i] != name,
        cache_index_of(keys, name) < 0 ==> forall|i: int|
            0 <= i < keys.len() ==> keys[i] != name,
    decreases keys.len(),
{
    if keys.len() > 0 && keys[0] != name {
        lemma_cache_index_of(keys.drop_first(), name);
        assert(forall|i: int|
            1 <= i < keys.len() ==> keys.drop_first()[i - 1] == #[trigger] keys[i]);
    }
}

/// A hit at `i` after misses before `i` makes `i` the first match.
pub proof fn lemma_cache_index_prefix(keys: Seq<Seq<char>>, name: Seq<char>, i: int)
    requires
        0 <= i < keys.len(),
        keys[i] == name,
        forall|j: int| 0 <= j < i ==> keys[j] != name,
    ensures
        cache_index_of(keys, name) == i,
    decreases i,
{
    if i > 0 {
        lemma_cache_index_prefix(keys.drop_first(), name, i - 1);
    }
}

impl ClosureCache {
    /// The key views, in insertion order.
    pub open spec fn key_seq(self) -> Seq<Seq<char>> {
        cache_keys(self.entries@)
    }

    /// The cache as a mathematical map from name to its cached closure,
    /// an ordered sequence of names without duplicates.
    pub open spec fn map_view(self) -> Map<Seq<char>, Seq<Seq<char>>> {
        Map::new(
            |name: Seq<char>| cache_index_of(cache_keys(self.entries@), name) >= 0,
            |name: Seq<char>| self.entries@[cache_index_of(cache_keys(self.entries@),
                name)].1.seq_view(),
        )
    }

    /// Keys are unique and every stored set is well formed.
    pub open spec fn wf(self) -> bool {
        &&& self.key_seq().no_duplicates()
        &&& forall|i: int|
            0 <= i < self.entries@.len() ==> (#[trigger] self.entries@[i]).1.wf()
    }

    /// An empty cache.
    pub fn new() -> (c: ClosureCache)
        ensures
            c.wf(),
            c.map_view() =~= Map::<Seq<char>, Seq<Seq<char>>>::empty(),
            c.entries@.len() == 0,
    {
        let c = ClosureCache { entries: Vec::new() };
        proof {
            assert forall|n: Seq<char>| !(cache_index_of(cache_keys(c.entries@), n)
                >= 0) by {}
        }
        c
    }

    /// Position of `name`, mirroring `cache_index_of`.
    pub fn get_index(&self, name: &String) -> (r: Option<usize>)
        ensures
            match r {
                Some(i) => i < self.entries@.len() && cache_index_of(self.key_seq(),
                    name@) == i as int && self.key_seq()[i as int] == name@
                    && self.map_view().contains_key(name@) && self.map_view()[name@]
                    == self.entries@[i as int].1.seq_view(),
                None => !self.map_view().contains_key(name@),
            },
    {
        let n = self.entries.len();
        for i in 0..n
            invariant
                n == self.entries@.len(),
                forall|j: int| 0 <= j < i ==> self.key_seq()[j] != name@,
        {
            assert(self.key_seq()[i as int] == self.entries@[i as int].0@);
            if self.entries[i].0 == *name {
                proof {
                    lemma_cache_index_prefix(self.key_seq(), name@, i as int);
                }
                return Some(i);
            }
        }
        proof {
            lemma_cache_index_of(self.key_seq(), name@);
        }
        None
    }

    /// The stored set at a position.
    pub fn set_at(&self, i: usize) -> (r: &NameSet)
        requires
            i < self.entries@.len(),
        ensures
            *r == self.entries@[i as int].1,
    {
        &self.entries[i].1
    }

    /// Add an entry for a name that has none.
    pub fn insert_new(&mut self, name: String, set: NameSet)
        requires
            old(self).wf(),
            set.wf(),
            !old(self).map_view().contains_key(name@),
        ensures
            final(self).wf(),
            final(self).map_view() =~= old(self).map_view().insert(name@,
                set.seq_view()),
            final(self).key_seq() == old(self).key_seq().push(name@),
    {
        proof {
            lemma_cache_index_of(self.key_seq(), name@);
        }
        self.entries.push((name, set));
        proof {
            let keys0 = old(self).key_seq();
            let keys1 = self.key_seq();
            assert(keys1 =~= keys0.push(name@));
            assert(keys1.drop_last() =~= keys0);
            assert(!keys0.contains(name@)) by {
                if keys0.contains(name@) {
                    let j = choose|j: int| 0 <= j < keys0.len() && keys0[j] == name@;
                    lemma_cache_index_prefix_exists(keys0, name@);
                }
            }
            assert forall|i: int| 0 <= i < self.entries@.len() implies (
                #[trigger] self.entries@[i]).1.wf() by {
                if i < self.entries@.len() - 1 {
                    assert(self.entries@[i] == old(self).entries@[i]);
                }
            }
            assert(keys1.no_duplicates()) by {
                assert(forall|i: int|
                    0 <= i < keys0.len() ==> keys1[i] == #[trigger] keys0[i]);
            }
            assert forall|n: Seq<char>|
                #[trigger] self.map_view().contains_key(n)
                    || old(self).map_view().insert(name@, set.seq_view()).contains_key(
                    n) implies self.map_view().contains_key(n) == old(
                self).map_view().insert(name@, set.seq_view()).contains_key(n)
                && (self.map_view().contains_key(n) ==> self.map_view()[n] == old(
                self).map_view().insert(name@, set.seq_view())[n]) by {
                lemma_cache_index_push(keys0, name@, n);
                lemma_cache_index_of(keys0, n);
                lemma_cache_index_of(keys1, n);
                if n != name@ && cache_index_of(keys0, n) >= 0 {
                    let j = cache_index_of(keys0, n);
                    assert(self.entries@[j] == old(self).entries@[j]);
                }
            }
            assert(self.map_view() =~= old(self).map_view().insert(name@,
                set.seq_view()));
        }
    }

    /// Replace the set at a position with its union with `other`.
    pub fn union_into(&mut self, i: usize, other: &NameSet)
        requires
            old(self).wf(),
            i < old(self).entries@.len(),
        ensures
            final(self).wf(),
            final(self).key_seq() == old(self).key_seq(),
            final(self).map_view() =~= old(self).map_view().insert(
                old(self).key_seq()[i as int],
                name_seq_union(old(self).entries@[i as int].1.seq_view(),
                other.seq_view()),
            ),
    {
        let name = self.entries[i].0.clone();
        let mut merged = self.entries[i].1.duplicate();
        merged.union_with(other);
        self.entries.set(i, (name, merged));
        proof {
            let keys0 = old(self).key_seq();
            let keys1 = self.key_seq();
            assert(keys1 =~= keys0);
            let key = keys0[i as int];
            assert forall|j: int| 0 <= j < self.entries@.len() implies (
                #[trigger] self.entries@[j]).1.wf() by {
                if j != i {
                    assert(self.entries@[j] == old(self).entries@[j]);
                }
            }
            assert(cache_index_of(keys0, key) == i as int) by {
                lemma_cache_index_of(keys0, key);
                if cache_index_of(keys0, key) != i as int {
                    assert(keys0[cache_index_of(keys0, key)] == key);
                    assert(!keys0.no_duplicates());
                }
            }
            assert forall|n: Seq<char>| self.map_view().contains_key(n) implies
                self.map_view()[n] == old(self).map_view().insert(key,
                name_seq_union(old(self).entries@[i as int].1.seq_view(),
                other.seq_view()))[n] by {
                let j = cache_index_of(keys0, n);
                lemma_cache_index_of(keys0, n);
                if n == key {
                    assert(j == i as int);
                } else {
                    assert(self.entries@[j] == old(self).entries@[j]);
                }
            }
            assert(self.map_view() =~= old(self).map_view().insert(key,
                name_seq_union(old(self).entries@[i as int].1.seq_view(),
                other.seq_view())));
        }
    }
}

/// A contained key has a nonnegative index.
pub proof fn lemma_cache_index_prefix_exists(keys: Seq<Seq<char>>, name: Seq<char>)
    requires
        keys.contains(name),
    ensures
        cache_index_of(keys, name) >= 0,
    decreases keys.len(),
{
    if keys[0] != name {
        assert(keys.drop_first().contains(name)) by {
            let j = choose|j: int| 0 <= j < keys.len() && keys[j] == name;
            assert(keys.drop_first()[j - 1] == name);
        }
        lemma_cache_index_prefix_exists(keys.drop_first(), name);
    }
}

/// When every key misses, the index is -1.
pub proof fn lemma_cache_index_miss(keys: Seq<Seq<char>>, name: Seq<char>)
    requires
        forall|i: int| 0 <= i < keys.len() ==> keys[i] != name,
    ensures
        cache_index_of(keys, name) < 0,
    decreases keys.len(),
{
    if keys.len() > 0 {
        lemma_cache_index_miss(keys.drop_first(), name);
    }
}

/// How the first-match index reacts to pushing a fresh key.
pub proof fn lemma_cache_index_push(keys: Seq<Seq<char>>, pushed: Seq<char>, n: Seq<char>)
    ensures
        n != pushed ==> cache_index_of(keys.push(pushed), n) == cache_index_of(keys, n),
        !keys.contains(pushed) ==> cache_index_of(keys.push(pushed), pushed)
            == keys.len(),
{
    lemma_cache_index_of(keys, n);
    if n != pushed {
        let j = cache_index_of(keys, n);
        if j >= 0 {
            assert(keys.push(pushed)[j] == keys[j]);
            assert(forall|i: int|
                0 <= i < j ==> keys.push(pushed)[i] == #[trigger] keys[i]);
            lemma_cache_index_prefix(keys.push(pushed), n, j);
        } else {
            assert(forall|i: int|
                0 <= i < keys.len() ==> keys.push(pushed)[i] == #[trigger] keys[i]);
            assert(keys.push(pushed)[keys.len() as int] == pushed);
            lemma_cache_index_miss(keys.push(pushed), n);
        }
    }
    if !keys.contains(pushed) {
        assert(forall|i: int|
            0 <= i < keys.len() ==> keys.push(pushed)[i] == #[trigger] keys[i]);
        assert(keys.push(pushed)[keys.len() as int] == pushed);
        lemma_cache_index_prefix(keys.push(pushed), pushed, keys.len() as int);
    }
}

} // verus!
