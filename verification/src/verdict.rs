//! Verdicts, and how one is reached from match lengths.
//!
//! Nothing here knows of patterns: a group is a name, and what is known of
//! it is whether it matched and how far. The matcher feeds these in group by
//! group.

use crate::model::{lemma_settle_unique, longer, settle, tallied, Verdict};
use crate::names::NameSet;
use vstd::prelude::*;

verus! {

/// The verdict on one path.
#[derive(Debug, Clone)]
pub enum MatchVerdict {
    /// The path belongs to this group.
    Unique(String),
    /// The path belongs to no group (the empty set), or these groups tie
    /// for it.
    Ambiguous(NameSet),
}

impl View for MatchVerdict {
    type V = Verdict;

    open spec fn view(&self) -> Verdict {
        match self {
            MatchVerdict::Unique(name) => Verdict::Unique(name@),
            MatchVerdict::Ambiguous(names) => Verdict::Ambiguous(names@),
        }
    }
}

impl PartialEq for MatchVerdict {
    /// Two verdicts are equal when they name the same group, or the same
    /// set of groups.
    fn eq(&self, other: &MatchVerdict) -> (b: bool) {
        match (self, other) {
            (MatchVerdict::Unique(a), MatchVerdict::Unique(b)) => *a == *b,
            (MatchVerdict::Ambiguous(s), MatchVerdict::Ambiguous(t)) => *s == *t,
            _ => false,
        }
    }
}

impl vstd::std_specs::cmp::PartialEqSpecImpl for MatchVerdict {
    open spec fn obeys_eq_spec() -> bool {
        true
    }

    open spec fn eq_spec(&self, other: &MatchVerdict) -> bool {
        self@ == other@
    }
}

impl MatchVerdict {
    /// The set of an ambiguity is well formed.
    pub open spec fn wf(&self) -> bool {
        match self {
            MatchVerdict::Unique(_) => true,
            MatchVerdict::Ambiguous(names) => names.wf(),
        }
    }
}

/// The greater of two optional offsets, where `None` is below every offset.
pub fn longer_of(a: Option<usize>, b: Option<usize>) -> (r: Option<usize>)
    ensures
        r == longer(a, b),
{
    match (a, b) {
        (None, _) => b,
        (_, None) => a,
        (Some(x), Some(y)) => if x >= y {
            a
        } else {
            b
        },
    }
}

/// The greatest match length among the groups seen so far, and the groups
/// that reach it.
#[derive(Debug, Clone)]
pub struct Tally {
    longest: Option<usize>,
    targets: NameSet,
}

impl Tally {
    /// The greatest match length so far, if a group has matched.
    pub closed spec fn best(&self) -> Option<usize> {
        self.longest
    }

    /// The names of the groups that reach the greatest match length.
    pub closed spec fn leaders(&self) -> Set<Seq<char>> {
        self.targets@
    }

    /// The set of leaders is well formed.
    pub closed spec fn wf(&self) -> bool {
        self.targets.wf()
    }

    /// The tally before any group is seen.
    pub fn new() -> (t: Tally)
        ensures
            t.wf(),
            t.best() is None,
            t.leaders() == Set::<Seq<char>>::empty(),
    {
        Tally { longest: None, targets: NameSet::new() }
    }

    /// The greatest match length so far.
    pub fn longest(&self) -> (len: Option<usize>)
        ensures
            len == self.best(),
    {
        self.longest
    }

    /// Takes in the group called `name`, whose match length is `len`.
    pub fn record(&mut self, name: &str, len: Option<usize>)
        requires
            old(self).wf(),
        ensures
            final(self).wf(),
            final(self).best() == longer(old(self).best(), len),
            final(self).leaders() == tallied(old(self).best(), old(self).leaders(), name@, len),
    {
        if let Some(l) = len {
            let (further, level) = match self.longest {
                None => (true, true),
                Some(best) => (l > best, l >= best),
            };
            if further {
                self.longest = len;
                self.targets = NameSet::new();
            }
            if level {
                self.targets.insert(name.to_owned());
            }
            proof {
                if further {
                    assert(self.targets@ =~= set![name@]);
                }
            }
        }
    }

    /// The verdict that the tally stands for: the leader where there is
    /// exactly one, else the set of leaders.
    pub fn verdict(self) -> (v: MatchVerdict)
        requires
            self.wf(),
        ensures
            v.wf(),
            v@ == settle(self.leaders()),
    {
        if let Some(name) = self.targets.single() {
            proof {
                lemma_settle_unique(self.targets@, name@);
            }
            return MatchVerdict::Unique(name);
        }
        MatchVerdict::Ambiguous(self.targets)
    }
}

/// What the quick test of the groups has shown so far: that none matched,
/// that one did, or that more than one did.
#[derive(Debug, Clone)]
pub enum Fired {
    /// No group matched.
    Nothing,
    /// Only this group matched.
    Single(String),
    /// At least two groups matched.
    Several,
}

/// `Fired` over names as sequences of characters.
pub enum FiredView {
    Nothing,
    Single(Seq<char>),
    Several,
}

impl View for Fired {
    type V = FiredView;

    open spec fn view(&self) -> FiredView {
        match self {
            Fired::Nothing => FiredView::Nothing,
            Fired::Single(name) => FiredView::Single(name@),
            Fired::Several => FiredView::Several,
        }
    }
}

impl Fired {
    /// The state once one more group, called `name`, has matched.
    pub fn hit(self, name: &str) -> (f: Fired)
        ensures
            f@ == match self@ {
                FiredView::Nothing => FiredView::Single(name@),
                _ => FiredView::Several,
            },
    {
        match self {
            Fired::Nothing => Fired::Single(name.to_owned()),
            _ => Fired::Several,
        }
    }

    /// The verdict that needs no match length: the empty ambiguity where
    /// no group matched, the group where one did; none where several did.
    pub fn verdict(self) -> (v: Option<MatchVerdict>)
        ensures
            match self@ {
                FiredView::Nothing => v matches Some(w) && w.wf() && w@ == Verdict::Ambiguous(
                    Set::empty(),
                ),
                FiredView::Single(name) => v matches Some(w) && w.wf() && w@ == Verdict::Unique(
                    name,
                ),
                FiredView::Several => v is None,
            },
    {
        match self {
            Fired::Nothing => Some(MatchVerdict::Ambiguous(NameSet::new())),
            Fired::Single(name) => Some(MatchVerdict::Unique(name)),
            Fired::Several => None,
        }
    }
}

} // verus!
