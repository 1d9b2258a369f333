//! Per-package dependent counters for one snapshot analysis.

use vstd::prelude::*;
use crate::cache::cache_index_of;
use crate::cache::lemma_cache_index_of;
use crate::cache::lemma_cache_index_prefix;
use crate::cache::lemma_cache_index_prefix_exists;
use crate::cache::lemma_cache_index_push;

verus! {

broadcast use vstd::set::group_set_axioms;

/// The counters recorded for a name, or zero when none are.
pub open spec fn cnt_of(c: Map<Seq<char>, (nat, nat)>, n: Seq<char>) -> (nat, nat) {
    if c.contains_key(n) {
        c[n]
    } else {
        (0nat, 0nat)
    }
}

/// One more direct dependent for `n`.
pub open spec fn spec_bump_direct(c: Map<Seq<char>, (nat, nat)>, n: Seq<char>) -> Map<
    Seq<char>, (nat, nat)> {
    c.insert(n, (cnt_of(c, n).0 + 1, cnt_of(c, n).1))
}

/// One more transitive dependent for `n`.
pub open spec fn spec_bump_trans(c: Map<Seq<char>, (nat, nat)>, n: Seq<char>) -> Map<
    Seq<char>, (nat, nat)> {
    c.insert(n, (cnt_of(c, n).0, cnt_of(c, n).1 + 1))
}

/// One more direct dependent for every name of the list, in order;
/// a name occurring twice is counted twice.
pub open spec fn spec_add_direct(c: Map<Seq<char>, (nat, nat)>, names: Seq<Seq<char>>) -> Map<
    Seq<char>, (nat, nat)>
    decreases names.len(),
{
    if names.len() == 0 {
        c
    } else {
        spec_add_direct(spec_bump_direct(c, names[0]), names.drop_first())
    }
}

/// One more transitive dependent for every name of the list, in order.
pub open spec fn spec_add_trans(c: Map<Seq<char>, (nat, nat)>, names: Seq<Seq<char>>) -> Map<
    Seq<char>, (nat, nat)>
    decreases names.len(),
{
    if names.len() == 0 {
        c
    } else {
        spec_add_trans(spec_bump_trans(c, names[0]), names.drop_first())
    }
}

/// Adding direct dependents never lowers a counter and leaves the
/// transitive counter alone.
pub proof fn lemma_add_direct_monotone(
    c: Map<Seq<char>, (nat, nat)>,
    names: Seq<Seq<char>>,
    n: Seq<char>,
)
    ensures
        cnt_of(spec_add_direct(c, names), n).0 >= cnt_of(c, n).0,
        cnt_of(spec_add_direct(c, names), n).1 == cnt_of(c, n).1,
    decreases names.len(),
{
    if names.len() > 0 {
        lemma_add_direct_monotone(spec_bump_direct(c, names[0]), names.drop_first(), n);
    }
}

/// Adding transitive dependents never lowers a counter and leaves the
/// direct counter alone.
pub proof fn lemma_add_trans_monotone(
    c: Map<Seq<char>, (nat, nat)>,
    names: Seq<Seq<char>>,
    n: Seq<char>,
)
    ensures
        cnt_of(spec_add_trans(c, names), n).1 >= cnt_of(c, n).1,
        cnt_of(spec_add_trans(c, names), n).0 == cnt_of(c, n).0,
    decreases names.len(),
{
    if names.len() > 0 {
        lemma_add_trans_monotone(spec_bump_trans(c, names[0]), names.drop_first(), n);
    }
}

/// Executable counter table, keyed by package name. Keys are unique; the
/// key order is the insertion order.
pub struct CountMap {
    pub entries: Vec<(String, (u64, u64))>,
}

impl CountMap {
    /// The key views, in insertion order.
    pub open spec fn key_seq(self) -> Seq<Seq<char>> {
        self.entries@.map_values(|p: (String, (u64, u64))| p.0@)
    }

    /// The table as a mathematical map.
    pub open spec fn map_view(self) -> Map<Seq<char>, (nat, nat)> {
        Map::new(
            |n: Seq<char>| cache_index_of(self.key_seq(), n) >= 0,
            |n: Seq<char>| (self.entries@[cache_index_of(self.key_seq(), n)].1.0
                as nat, self.entries@[cache_index_of(self.key_seq(), n)].1.1 as nat),
        )
    }

    /// Keys are unique.
    pub open spec fn wf(self) -> bool {
        self.key_seq().no_duplicates()
    }

    /// An empty table.
    pub fn new() -> (c: CountMap)
        ensures
            c.wf(),
            c.map_view() =~= Map::<Seq<char>, (nat, nat)>::empty(),
            c.entries@.len() == 0,
    {
        CountMap { entries: Vec::new() }
    }

    /// Number of counted names.
    pub fn len(&self) -> (n: usize)
        ensures
            n == self.entries@.len(),
    {
        self.entries.len()
    }

    /// The name at a position.
    pub fn key_at(&self, i: usize) -> (r: &String)
        requires
            i < self.entries@.len(),
        ensures
            r@ == self.key_seq()[i as int],
    {
        &self.entries[i].0
    }

    /// The counters at a position.
    pub fn val_at(&self, i: usize) -> (r: (u64, u64))
        requires
            i < self.entries@.len(),
            self.wf(),
        ensures
            self.map_view().contains_key(self.key_seq()[i as int]),
            self.map_view()[self.key_seq()[i as int]] == (r.0 as nat, r.1 as nat),
    {
        proof {
            lemma_cache_index_prefix_unique(self.key_seq(), i as int);
        }
        (self.entries[i].1.0, self.entries[i].1.1)
    }

    /// Position of `name`, mirroring `cache_index_of`.
    pub fn get_index(&self, name: &String) -> (r: Option<usize>)
        ensures
            match r {
                Some(i) => i < self.entries@.len() && cache_index_of(self.key_seq(),
                    name@) == i as int && self.key_seq()[i as int] == name@
                    && self.map_view().contains_key(name@),
                None => !self.map_view().contains_key(name@),
            },
    {
        let n = self.entries.len();
        for i in 0..n
            invariant
                n == self.entries@.len(),
                forall|j: int| 0 <= j < i ==> self.key_seq()[j] != name@,
        {
            assert(self.key_seq()[i as int] == self.entries@[i as int].0@);
            if self.entries[i].0 == *name {
                proof {
                    lemma_cache_index_prefix(self.key_seq(), name@, i as int);
                }
                return Some(i);
            }
        }
        proof {
            lemma_cache_index_of(self.key_seq(), name@);
        }
        None
    }

    /// The counters for `name`, zero when it has none.
    pub fn lookup(&self, name: &String) -> (r: (u64, u64))
        requires
            self.wf(),
        ensures
            (r.0 as nat, r.1 as nat) == cnt_of(self.map_view(), name@),
    {
        match self.get_index(name) {
            Some(i) => self.val_at(i),
            None => (0, 0),
        }
    }

    /// Count one direct dependent. Returns false, changing nothing, when
    /// the counter cannot grow.
    pub fn bump_direct(&mut self, name: &String) -> (r: bool)
        requires
            old(self).wf(),
        ensures
            final(self).wf(),
            r ==> final(self).map_view() == spec_bump_direct(old(self).map_view(),
                name@),
            !r ==> *final(self) == *old(self) && cnt_of(spec_bump_direct(
                old(self).map_view(), name@), name@).0 > u64::MAX,
    {
        self.bump(name, true)
    }

    /// Count one transitive dependent. Returns false, changing nothing,
    /// when the counter cannot grow.
    pub fn bump_trans(&mut self, name: &String) -> (r: bool)
        requires
            old(self).wf(),
        ensures
            final(self).wf(),
            r ==> final(self).map_view() == spec_bump_trans(old(self).map_view(),
                name@),
            !r ==> *final(self) == *old(self) && cnt_of(spec_bump_trans(
                old(self).map_view(), name@), name@).1 > u64::MAX,
    {
        self.bump(name, false)
    }

    /// Shared increment.
    fn bump(&mut self, name: &String, direct: bool) -> (r: bool)
        requires
            old(self).wf(),
        ensures
            final(self).wf(),
            r && direct ==> final(self).map_view() == spec_bump_direct(
                old(self).map_view(), name@),
            r && !direct ==> final(self).map_view() == spec_bump_trans(
                old(self).map_view(), name@),
            !r ==> *final(self) == *old(self),
            !r && direct ==> cnt_of(spec_bump_direct(old(self).map_view(), name@),
                name@).0 > u64::MAX,
            !r && !direct ==> cnt_of(spec_bump_trans(old(self).map_view(), name@),
                name@).1 > u64::MAX,
    {
        let hit = self.get_index(name);
        match hit {
            Some(i) => {
                let (d, t) = (self.entries[i].1.0, self.entries[i].1.1);
                if direct && d == u64::MAX {
                    return false;
                }
                if !direct && t == u64::MAX {
                    return false;
                }
                let key = self.entries[i].0.clone();
                let newval = if direct {
                    (d + 1, t)
                } else {
                    (d, t + 1)
                };
                self.entries.set(i, (key, newval));
                proof {
                    let keys0 = old(self).key_seq();
                    let keys1 = self.key_seq();
                    assert(keys1 =~= keys0);
                    lemma_cache_index_prefix_unique(keys0, i as int);
                    assert forall|n: Seq<char>| self.map_view().contains_key(n)
                        implies self.map_view()[n] == (if direct {
                        spec_bump_direct(old(self).map_view(), name@)
                    } else {
                        spec_bump_trans(old(self).map_view(), name@)
                    })[n] by {
                        lemma_cache_index_of(keys0, n);
                        if n != name@ {
                            assert(self.entries@[cache_index_of(keys0, n)] == old(
                                self).entries@[cache_index_of(keys0, n)]);
                        }
                    }
                    if direct {
                        assert(self.map_view() =~= spec_bump_direct(
                            old(self).map_view(), name@));
                    } else {
                        assert(self.map_view() =~= spec_bump_trans(
                            old(self).map_view(), name@));
                    }
                }
                true
            },
            None => {
                let newval = if direct {
                    (1u64, 0u64)
                } else {
                    (0u64, 1u64)
                };
                self.entries.push((name.clone(), newval));
                proof {
                    let keys0 = old(self).key_seq();
                    let keys1 = self.key_seq();
                    assert(keys1 =~= keys0.push(name@));
                    assert(keys1.drop_last() =~= keys0);
                    assert(!keys0.contains(name@)) by {
                        if keys0.contains(name@) {
                            lemma_cache_index_prefix_exists(keys0, name@);
                        }
                    }
                    assert(keys1.no_duplicates()) by {
                        assert(forall|j: int|
                            0 <= j < keys0.len() ==> keys1[j] == #[trigger] keys0[j]);
                    }
                    assert forall|n: Seq<char>|
                        #[trigger] self.map_view().contains_key(n) || (if direct {
                            spec_bump_direct(old(self).map_view(), name@)
                        } else {
                            spec_bump_trans(old(self).map_view(), name@)
                        }).contains_key(n) implies self.map_view().contains_key(n)
                        == (if direct {
                        spec_bump_direct(old(self).map_view(), name@)
                    } else {
                        spec_bump_trans(old(self).map_view(), name@)
                    }).contains_key(n) && (self.map_view().contains_key(n)
                        ==> self.map_view()[n] == (if direct {
                        spec_bump_direct(old(self).map_view(), name@)
                    } else {
                        spec_bump_trans(old(self).map_view(), name@)
                    })[n]) by {
                        lemma_cache_index_push(keys0, name@, n);
                        lemma_cache_index_of(keys0, n);
                        lemma_cache_index_of(keys1, n);
                        if n != name@ && cache_index_of(keys0, n) >= 0 {
                            assert(self.entries@[cache_index_of(keys0, n)] == old(
                                self).entries@[cache_index_of(keys0, n)]);
                        }
                    }
                    if direct {
                        assert(self.map_view() =~= spec_bump_direct(
                            old(self).map_view(), name@));
                    } else {
                        assert(self.map_view() =~= spec_bump_trans(
                            old(self).map_view(), name@));
                    }
                }
                true
            },
        }
    }
}

/// In a duplicate-free key sequence, position `i` is the first match for
/// its own key.
pub proof fn lemma_cache_index_prefix_unique(keys: Seq<Seq<char>>, i: int)
    requires
        keys.no_duplicates(),
        0 <= i < keys.len(),
    ensures
        cache_index_of(keys, keys[i]) == i,
{
    lemma_cache_index_prefix(keys, keys[i], i);
}

} // verus!
