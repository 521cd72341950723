//! A set of group names.
//!
//! The names are kept in the order in which they were inserted, each once.
//! That order carries no meaning: the set's value is its view.

use crate::engine::texts;
use vstd::prelude::*;

verus! {

/// A finite set of names.
#[derive(Debug, Clone)]
pub struct NameSet {
    names: Vec<String>,
}

impl View for NameSet {
    type V = Set<Seq<char>>;

    closed spec fn view(&self) -> Set<Seq<char>> {
        texts(self.names@).to_set()
    }
}

impl PartialEq for NameSet {
    /// Two sets are equal when they hold the same names, in whatever order.
    fn eq(&self, other: &NameSet) -> (b: bool) {
        let b = self.is_subset_of(other) && other.is_subset_of(self);
        proof {
            if b {
                assert(self@ =~= other@);
            }
        }
        b
    }
}

impl vstd::std_specs::cmp::PartialEqSpecImpl for NameSet {
    open spec fn obeys_eq_spec() -> bool {
        true
    }

    open spec fn eq_spec(&self, other: &NameSet) -> bool {
        self@ == other@
    }
}

impl NameSet {
    /// No name is held twice.
    pub closed spec fn wf(&self) -> bool {
        texts(self.names@).no_duplicates()
    }

    /// The names in the order in which they are held.
    spec fn listed(&self) -> Seq<Seq<char>> {
        texts(self.names@)
    }

    /// The list of a set holds each member once and nothing else.
    proof fn lemma_listed(&self)
        requires
            self.wf(),
        ensures
            self.listed().no_duplicates(),
            self.listed().to_set() == self@,
            self@.finite(),
            self@.len() == self.listed().len(),
    {
        self.listed().unique_seq_to_set();
        vstd::seq_lib::seq_to_set_is_finite(self.listed());
    }

    /// The empty set.
    pub fn new() -> (s: NameSet)
        ensures
            s.wf(),
            s@ == Set::<Seq<char>>::empty(),
    {
        NameSet { names: Vec::new() }
    }

    /// The number of names in the set.
    pub fn len(&self) -> (n: usize)
        requires
            self.wf(),
        ensures
            self@.finite(),
            n == self@.len(),
    {
        proof {
            self.lemma_listed();
        }
        self.names.len()
    }

    /// Whether the set holds no name.
    pub fn is_empty(&self) -> (b: bool)
        requires
            self.wf(),
        ensures
            b == (self@ == Set::<Seq<char>>::empty()),
    {
        proof {
            self.lemma_listed();
            if self.names@.len() > 0 {
                assert(self.listed()[0] == self.names@[0]@);
            } else {
                assert(self@ =~= Set::<Seq<char>>::empty());
            }
        }
        self.names.len() == 0
    }

    /// Whether `name` is in the set.
    pub fn contains(&self, name: &str) -> (b: bool)
        ensures
            b == self@.contains(name@),
    {
        let key = name.to_owned();
        self.holds(&key)
    }

    /// Whether `name` is in the set.
    fn holds(&self, name: &String) -> (b: bool)
        ensures
            b == self@.contains(name@),
    {
        let mut i: usize = 0;
        while i < self.names.len()
            invariant
                i <= self.names@.len(),
                forall|j: int| 0 <= j < i ==> self.names@[j]@ != name@,
            decreases self.names@.len() - i,
        {
            if self.names[i] == *name {
                proof {
                    assert(texts(self.names@)[i as int] == name@);
                }
                return true;
            }
            i += 1;
        }
        proof {
            if self@.contains(name@) {
                let j = choose|j: int|
                    0 <= j < texts(self.names@).len() && texts(self.names@)[j] == name@;
                assert(self.names@[j]@ == name@);
            }
        }
        false
    }

    /// Whether every name of the set is in `other`.
    pub fn is_subset_of(&self, other: &NameSet) -> (b: bool)
        ensures
            b == self@.subset_of(other@),
    {
        let mut i: usize = 0;
        while i < self.names.len()
            invariant
                i <= self.names@.len(),
                forall|j: int| 0 <= j < i ==> other@.contains(#[trigger] self.names@[j]@),
            decreases self.names@.len() - i,
        {
            if !other.holds(&self.names[i]) {
                proof {
                    assert(texts(self.names@)[i as int] == self.names@[i as int]@);
                }
                return false;
            }
            i += 1;
        }
        proof {
            assert forall|n: Seq<char>| self@.contains(n) implies other@.contains(n) by {
                let j = choose|j: int|
                    0 <= j < texts(self.names@).len() && texts(self.names@)[j] == n;
                assert(self.names@[j]@ == n);
            }
        }
        true
    }

    /// The member of the set, where the set has exactly one.
    pub fn single(&self) -> (name: Option<String>)
        requires
            self.wf(),
        ensures
            match name {
                Some(n) => self@ == set![n@],
                None => !exists|n: Seq<char>| self@ == set![n],
            },
    {
        proof {
            self.lemma_listed();
        }
        if self.names.len() == 1 {
            let name = self.names[0].clone();
            proof {
                assert(self.listed()[0] == name@);
                assert(self@.contains(name@));
                assert(self@.remove(name@).len() == 0);
                assert(self@ =~= set![name@]);
            }
            Some(name)
        } else {
            proof {
                if exists|n: Seq<char>| self@ == set![n] {
                    let n = choose|n: Seq<char>| self@ == set![n];
                    assert(set![n].len() == 1);
                }
            }
            None
        }
    }

    /// Puts `name` into the set. Returns whether it was new.
    pub fn insert(&mut self, name: String) -> (fresh: bool)
        requires
            old(self).wf(),
        ensures
            final(self).wf(),
            final(self)@ == old(self)@.insert(name@),
            fresh == !old(self)@.contains(name@),
    {
        if self.holds(&name) {
            return false;
        }
        let ghost before = texts(self.names@);
        self.names.push(name);
        proof {
            let after = texts(self.names@);
            assert(after =~= before.push(name@));
            assert forall|i: int, j: int|
                0 <= i < after.len() && 0 <= j < after.len() && i != j implies after[i]
                != after[j] by {
                if i < before.len() {
                    assert(before.to_set().contains(before[i]));
                }
                if j < before.len() {
                    assert(before.to_set().contains(before[j]));
                }
            }
            assert forall|n: Seq<char>| after.to_set().contains(n) <==> before.to_set().insert(
                name@,
            ).contains(n) by {
                if before.to_set().contains(n) {
                    let k = choose|k: int| 0 <= k < before.len() && before[k] == n;
                    assert(after[k] == n);
                }
                if n == name@ {
                    assert(after[before.len() as int] == n);
                }
            }
        }
        true
    }

    /// The names of the set, each once.
    pub fn names(&self) -> (list: Vec<String>)
        requires
            self.wf(),
        ensures
            texts(list@).no_duplicates(),
            texts(list@).to_set() == self@,
    {
        let mut list: Vec<String> = Vec::new();
        let mut i: usize = 0;
        while i < self.names.len()
            invariant
                i <= self.names@.len(),
                texts(list@) == texts(self.names@).subrange(0, i as int),
            decreases self.names@.len() - i,
        {
            let ghost before = texts(list@);
            let name = self.names[i].clone();
            list.push(name);
            proof {
                assert(texts(list@) =~= before.push(self.names@[i as int]@));
            }
            i += 1;
        }
        proof {
            assert(texts(self.names@).subrange(0, i as int) =~= texts(self.names@));
        }
        list
    }
}

} // verus!
