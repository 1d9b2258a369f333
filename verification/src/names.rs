//! Executable sets of package or feature names, with mathematical views.

use vstd::prelude::*;

verus! {

/// The views of a sequence of strings.
pub open spec fn names_view(names: Seq<String>) -> Seq<Seq<char>> {
    names.map_values(|s: String| s@)
}

/// Ordered insertion without duplication: a name already present leaves
/// the sequence unchanged, a new one goes to the end.
pub open spec fn name_seq_insert(s: Seq<Seq<char>>, x: Seq<char>) -> Seq<Seq<char>> {
    if s.contains(x) {
        s
    } else {
        s.push(x)
    }
}

/// Ordered union: the names of `t` inserted into `s` in order.
pub open spec fn name_seq_union(s: Seq<Seq<char>>, t: Seq<Seq<char>>) -> Seq<Seq<char>>
    decreases t.len(),
{
    if t.len() == 0 {
        s
    } else {
        name_seq_union(name_seq_insert(s, t[0]), t.drop_first())
    }
}

/// A set of names, backed by a vector without duplicates. The vector order
/// is the insertion order, which keeps iteration deterministic.
pub struct NameSet {
    pub names: Vec<String>,
}

impl NameSet {
    /// The names as a sequence, in insertion order.
    pub open spec fn seq_view(self) -> Seq<Seq<char>> {
        names_view(self.names@)
    }

    /// The names as a set.
    pub open spec fn set_view(self) -> Set<Seq<char>> {
        self.seq_view().to_set()
    }

    /// No name is stored twice.
    pub open spec fn wf(self) -> bool {
        self.seq_view().no_duplicates()
    }

    /// The empty set.
    pub fn empty() -> (s: NameSet)
        ensures
            s.seq_view() =~= Seq::<Seq<char>>::empty(),
            s.set_view() =~= Set::<Seq<char>>::empty(),
            s.wf(),
    {
        NameSet { names: Vec::new() }
    }

    /// A set holding one name.
    pub fn singleton(name: String) -> (s: NameSet)
        ensures
            s.seq_view() =~= seq![name@],
            s.set_view() =~= set![name@],
            s.wf(),
    {
        let mut names: Vec<String> = Vec::new();
        names.push(name);
        let s = NameSet { names };
        proof {
            assert(s.seq_view() =~= seq![name@]);
            assert forall|x: Seq<char>| s.set_view().contains(x) implies x == name@ by {
                let i = choose|i: int|
                    0 <= i < s.seq_view().len() && s.seq_view()[i] == x;
                assert(i == 0);
            }
            assert(s.seq_view().contains(name@)) by {
                assert(s.seq_view()[0] == name@);
            }
            assert(s.set_view() =~= set![name@]);
        }
        s
    }

    /// Number of stored names.
    pub fn len(&self) -> (n: usize)
        ensures
            n == self.seq_view().len(),
    {
        self.names.len()
    }

    /// The name at a position, in insertion order.
    pub fn index(&self, i: usize) -> (r: &String)
        requires
            i < self.seq_view().len(),
        ensures
            r@ == self.seq_view()[i as int],
    {
        &self.names[i]
    }

    /// Membership test.
    pub fn contains(&self, name: &String) -> (r: bool)
        ensures
            r == self.set_view().contains(name@),
    {
        let n = self.names.len();
        for i in 0..n
            invariant
                n == self.names@.len(),
                forall|j: int| 0 <= j < i ==> self.seq_view()[j] != name@,
        {
            assert(self.seq_view()[i as int] == self.names@[i as int]@);
            if self.names[i] == *name {
                proof {
                    assert(self.seq_view().contains(name@));
                }
                return true;
            }
        }
        proof {
            if self.set_view().contains(name@) {
                let j = choose|j: int|
                    0 <= j < self.seq_view().len() && self.seq_view()[j] == name@;
                assert(self.seq_view()[j] != name@);
            }
        }
        false
    }

    /// A copy with the same contents.
    pub fn duplicate(&self) -> (r: NameSet)
        ensures
            r.seq_view() == self.seq_view(),
            r.set_view() == self.set_view(),
            r.wf() == self.wf(),
    {
        let r = NameSet { names: self.names.clone() };
        proof {
            assert(r.seq_view() =~= self.seq_view());
        }
        r
    }

    /// Insert every name of `other`, in order.
    pub fn union_with(&mut self, other: &NameSet)
        requires
            old(self).wf(),
        ensures
            final(self).wf(),
            final(self).seq_view() == name_seq_union(old(self).seq_view(),
                other.seq_view()),
            final(self).set_view() =~= old(self).set_view().union(other.set_view()),
    {
        let n = other.names.len();
        proof {
            assert(other.seq_view().skip(0) =~= other.seq_view());
        }
        for i in 0..n
            invariant
                n == other.names@.len(),
                self.wf(),
                name_seq_union(old(self).seq_view(), other.seq_view())
                    == name_seq_union(self.seq_view(), other.seq_view().skip(
                    i as int)),
                self.set_view() =~= old(self).set_view().union(
                    other.seq_view().take(i as int).to_set()),
        {
            proof {
                assert(other.seq_view()[i as int] == other.names@[i as int]@);
                assert(other.seq_view().skip(i as int)[0] == other.seq_view()[
                    i as int]);
                assert(other.seq_view().skip(i as int).drop_first() =~=
                    other.seq_view().skip(i + 1));
                assert(other.seq_view().take(i + 1) =~= other.seq_view().take(
                    i as int).push(other.seq_view()[i as int]));
                other.seq_view().take(i as int).lemma_push_to_set_commute(
                    other.seq_view()[i as int]);
            }
            self.insert(other.names[i].clone());
        }
        proof {
            assert(other.seq_view().take(n as int) =~= other.seq_view());
            assert(other.seq_view().skip(n as int) =~= Seq::<Seq<char>>::empty());
        }
    }

    /// Insert a name; a name already present is not stored again.
    pub fn insert(&mut self, name: String)
        requires
            old(self).wf(),
        ensures
            final(self).wf(),
            final(self).set_view() =~= old(self).set_view().insert(name@),
            final(self).seq_view() == name_seq_insert(old(self).seq_view(), name@),
    {
        let present = self.contains(&name);
        if !present {
            self.names.push(name);
            proof {
                assert(self.seq_view() =~= old(self).seq_view().push(name@));
                old(self).seq_view().lemma_push_to_set_commute(name@);
                assert(self.seq_view().drop_last() =~= old(self).seq_view());
            }
        } else {
            proof {
                assert(self.set_view() =~= old(self).set_view().insert(name@));
            }
        }
    }
}

} // verus!
