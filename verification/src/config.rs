//! Rule groups: named lists of pattern texts.
//!
//! A configuration holds each group once, under its name. The order of the
//! groups means nothing; a group's patterns are kept in the order in which
//! they were added.

use crate::engine::texts;
use crate::groups::{
    absorb, as_map, distinct_names, has_name, lemma_absorb_empty, lemma_absorb_insert,
    lemma_as_map_at, lemma_as_map_len, lemma_as_map_push, lemma_as_map_update, merged,
    patterns_of,
};
use vstd::prelude::*;

verus! {

/// One named group with its patterns.
#[derive(Debug, Clone)]
pub struct RuleGroup {
    pub(crate) name: String,
    pub(crate) patterns: Vec<String>,
}

/// The groups of a rule set, each name once.
#[derive(Debug, Clone)]
pub struct Config {
    pub(crate) groups: Vec<RuleGroup>,
}

impl RuleGroup {
    /// The group's name and patterns as plain values.
    pub open(crate) spec fn entry(&self) -> (Seq<char>, Seq<Seq<char>>) {
        (self.name@, texts(self.patterns@))
    }

    /// The group's name.
    pub fn name(&self) -> (name: &String)
        ensures
            name@ == self.entry().0,
    {
        &self.name
    }

    /// The group's patterns, in the order in which they were added.
    pub fn patterns(&self) -> (patterns: &Vec<String>)
        ensures
            texts(patterns@) == self.entry().1,
    {
        &self.patterns
    }
}

impl View for Config {
    type V = Map<Seq<char>, Seq<Seq<char>>>;

    open(crate) spec fn view(&self) -> Map<Seq<char>, Seq<Seq<char>>> {
        as_map(self.entries())
    }
}

impl Config {
    /// The groups as plain values, in the order in which they are held.
    pub open(crate) spec fn entries(&self) -> Seq<(Seq<char>, Seq<Seq<char>>)> {
        Seq::new(self.groups@.len(), |i: int| self.groups@[i].entry())
    }

    /// No two groups share a name.
    pub open(crate) spec fn wf(&self) -> bool {
        distinct_names(self.entries())
    }

    /// A configuration without groups.
    pub fn new() -> (c: Config)
        ensures
            c.wf(),
            c@ == Map::<Seq<char>, Seq<Seq<char>>>::empty(),
    {
        Config { groups: Vec::new() }
    }

    /// The number of groups.
    pub fn len(&self) -> (n: usize)
        requires
            self.wf(),
        ensures
            self@.dom().finite(),
            n == self@.dom().len(),
    {
        proof {
            lemma_as_map_len(self.entries());
        }
        self.groups.len()
    }

    /// Whether there is no group.
    pub fn is_empty(&self) -> (b: bool)
        requires
            self.wf(),
        ensures
            b == (self@.dom() == Set::<Seq<char>>::empty()),
    {
        proof {
            lemma_as_map_len(self.entries());
            if self.groups@.len() == 0 {
                assert(self@.dom() =~= Set::<Seq<char>>::empty());
            }
        }
        self.groups.len() == 0
    }

    /// The groups, each once.
    pub fn groups(&self) -> (groups: &Vec<RuleGroup>)
        ensures
            groups@.len() == self.entries().len(),
            forall|i: int|
                0 <= i < groups@.len() ==> (#[trigger] groups@[i]).entry() == self.entries()[i],
    {
        &self.groups
    }

    /// The patterns of the group called `name`, if there is such a group.
    pub fn get(&self, name: &str) -> (patterns: Option<&Vec<String>>)
        requires
            self.wf(),
        ensures
            match patterns {
                Some(list) => self@.dom().contains(name@) && texts(list@) == self@[name@],
                None => !self@.dom().contains(name@),
            },
    {
        let key = name.to_owned();
        match self.position(&key) {
            Some(i) => {
                proof {
                    lemma_as_map_at(self.entries(), i as int);
                }
                Some(&self.groups[i].patterns)
            },
            None => None,
        }
    }

    /// The place of the group called `name`, if there is one.
    fn position(&self, name: &String) -> (at: Option<usize>)
        ensures
            at is Some == has_name(self.entries(), name@),
            at matches Some(i) ==> i < self.groups@.len() && self.groups@[i as int].name@ == name@,
    {
        let mut i: usize = 0;
        while i < self.groups.len()
            invariant
                i <= self.groups@.len(),
                forall|j: int| 0 <= j < i ==> self.groups@[j].name@ != name@,
            decreases self.groups@.len() - i,
        {
            if self.groups[i].name == *name {
                assert(self.entries()[i as int].0 == name@);
                return Some(i);
            }
            i += 1;
        }
        proof {
            if has_name(self.entries(), name@) {
                let j = choose|j: int|
                    0 <= j < self.entries().len() && (#[trigger] self.entries()[j]).0 == name@;
                assert(self.groups@[j].name@ == name@);
            }
        }
        None
    }

    /// The place of the group called `name`, which is opened without
    /// patterns if it is not there yet.
    fn slot(&mut self, name: &String) -> (at: usize)
        requires
            old(self).wf(),
        ensures
            final(self).wf(),
            at < final(self).groups@.len(),
            final(self).entries()[at as int] == (name@, patterns_of(old(self)@, name@)),
            final(self)@ == old(self)@.insert(name@, patterns_of(old(self)@, name@)),
    {
        let ghost before = self.entries();
        match self.position(name) {
            Some(i) => {
                proof {
                    lemma_as_map_at(before, i as int);
                }
                i
            },
            None => {
                let group = RuleGroup { name: name.clone(), patterns: Vec::new() };
                assert(group.entry().1 =~= Seq::<Seq<char>>::empty());
                self.groups.push(group);
                proof {
                    lemma_as_map_push(before, name@, Seq::empty());
                    assert(self.entries() =~= before.push((name@, Seq::empty())));
                }
                self.groups.len() - 1
            },
        }
    }

    /// Appends `pattern` to the entry at `at`.
    fn push_at(&mut self, at: usize, pattern: String)
        requires
            old(self).wf(),
            at < old(self).groups@.len(),
        ensures
            final(self).wf(),
            final(self).groups@.len() == old(self).groups@.len(),
            final(self).entries() == old(self).entries().update(
                at as int,
                (old(self).entries()[at as int].0, old(self).entries()[at as int].1.push(pattern@)),
            ),
            final(self)@ == old(self)@.insert(
                old(self).entries()[at as int].0,
                old(self).entries()[at as int].1.push(pattern@),
            ),
    {
        let ghost before = self.entries();
        let ghost held = self.groups@;
        let ghost text = pattern@;
        self.groups[at].patterns.push(pattern);
        proof {
            assert(texts(self.groups@[at as int].patterns@) =~= texts(
                held[at as int].patterns@,
            ).push(text));
            lemma_as_map_update(before, at as int, before[at as int].1.push(text));
            assert(self.entries() =~= before.update(
                at as int,
                (before[at as int].0, before[at as int].1.push(text)),
            ));
        }
    }

    /// Appends `pattern` to the group called `name`, which is opened if it is
    /// not there yet.
    pub fn add_pattern(&mut self, name: &str, pattern: String)
        requires
            old(self).wf(),
        ensures
            final(self).wf(),
            final(self)@ == old(self)@.insert(name@, patterns_of(old(self)@, name@).push(pattern@)),
    {
        let key = name.to_owned();
        let at = self.slot(&key);
        self.push_at(at, pattern);
        proof {
            assert(self@ =~= old(self)@.insert(
                name@,
                patterns_of(old(self)@, name@).push(pattern@),
            ));
        }
    }

    /// Appends `patterns` to the group called `name`, which is opened if it
    /// is not there yet, also where `patterns` is empty.
    pub fn add_group(&mut self, name: &str, patterns: &Vec<String>)
        requires
            old(self).wf(),
        ensures
            final(self).wf(),
            final(self)@ == old(self)@.insert(
                name@,
                patterns_of(old(self)@, name@) + texts(patterns@),
            ),
    {
        let key = name.to_owned();
        let at = self.slot(&key);
        let ghost held = patterns_of(old(self)@, name@);
        let ghost more = texts(patterns@);
        let mut i: usize = 0;
        proof {
            assert(held + more.take(0) =~= held);
        }
        while i < patterns.len()
            invariant
                i <= patterns@.len(),
                more == texts(patterns@),
                self.wf(),
                at < self.groups@.len(),
                self.entries()[at as int] == (name@, held + more.take(i as int)),
                self@ == old(self)@.insert(name@, held + more.take(i as int)),
            decreases patterns@.len() - i,
        {
            let pattern = patterns[i].clone();
            self.push_at(at, pattern);
            proof {
                assert((held + more.take(i as int)).push(more[i as int]) =~= held + more.take(
                    i + 1,
                ));
            }
            i += 1;
        }
        proof {
            assert(more.take(i as int) =~= more);
        }
    }

    /// Takes in the groups of `other`: a group of both gets the patterns of
    /// `other` behind its own.
    pub fn extend(&mut self, other: &Config)
        requires
            old(self).wf(),
            other.wf(),
        ensures
            final(self).wf(),
            final(self)@ == absorb(old(self)@, other@),
    {
        let ghost base = self@;
        let ghost more = other.entries();
        let mut j: usize = 0;
        proof {
            lemma_absorb_empty(base);
        }
        while j < other.groups.len()
            invariant
                j <= other.groups@.len(),
                more == other.entries(),
                distinct_names(more),
                self.wf(),
                self@ == absorb(base, as_map(more.take(j as int))),
            decreases other.groups@.len() - j,
        {
            let group = &other.groups[j];
            proof {
                let seen = more.take(j as int);
                assert(more.take(j + 1) =~= seen.push(more[j as int]));
                assert forall|a: int, b: int|
                    0 <= a < seen.len() && 0 <= b < seen.len() && a != b implies (
                #[trigger] seen[a]).0 != (#[trigger] seen[b]).0 by {
                    assert(seen[a] == more[a] && seen[b] == more[b]);
                }
                if has_name(seen, group.name@) {
                    let k = choose|k: int|
                        0 <= k < seen.len() && (#[trigger] seen[k]).0 == group.name@;
                    assert(seen[k] == more[k]);
                }
                lemma_as_map_push(seen, group.name@, texts(group.patterns@));
                lemma_absorb_insert(base, as_map(seen), group.name@, texts(group.patterns@));
            }
            self.add_group(group.name.as_str(), &group.patterns);
            j += 1;
        }
        proof {
            assert(more.take(j as int) =~= more);
        }
    }
}

/// The views of a list of configurations.
pub open spec fn views(configs: Seq<Config>) -> Seq<Map<Seq<char>, Seq<Seq<char>>>> {
    Seq::new(configs.len(), |i: int| configs[i]@)
}

/// Merges configurations into one. A group that several of them declare
/// gets the patterns of all, in the order of the list.
pub fn merge_configs(configs: Vec<Config>) -> (all: Config)
    requires
        forall|i: int| 0 <= i < configs@.len() ==> (#[trigger] configs@[i]).wf(),
    ensures
        all.wf(),
        all@ == merged(views(configs@)),
{
    let mut all = Config::new();
    let mut i: usize = 0;
    while i < configs.len()
        invariant
            i <= configs@.len(),
            forall|k: int| 0 <= k < configs@.len() ==> (#[trigger] configs@[k]).wf(),
            all.wf(),
            all@ == merged(views(configs@).take(i as int)),
        decreases configs@.len() - i,
    {
        proof {
            let seen = views(configs@).take(i + 1);
            assert(seen.drop_last() =~= views(configs@).take(i as int));
        }
        all.extend(&configs[i]);
        i += 1;
    }
    proof {
        assert(views(configs@).take(i as int) =~= views(configs@));
    }
    all
}

} // verus!
