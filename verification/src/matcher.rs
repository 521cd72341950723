//! The compiled rule groups and the classification of a path.
//!
//! Each group is compiled twice: every pattern on its own, to find where its
//! match ends, and all of a group's patterns as one set, to learn quickly
//! whether the group matches at all.

use crate::config::Config;
use crate::engine::{
    any_matches, compile, compile_set, find_end, pattern_compiles, regex_set_patterns,
    regex_source, set_compiles, set_is_match, texts,
};
use crate::groups::{as_map, distinct_names, lemma_as_map_at};
use crate::model::{group_len, law_no_group, law_single_group, leaders, leads, verdict};
use crate::verdict::{longer_of, Fired, FiredView, MatchVerdict, Tally};
use regex::{Regex, RegexSet};
use vstd::prelude::*;

verus! {

/// One compiled group.
#[derive(Debug)]
pub struct MatchSet {
    pub(crate) name: String,
    pub(crate) set: RegexSet,
    pub(crate) rxs: Vec<Regex>,
}

/// The compiled groups of a configuration, each name once.
#[derive(Debug)]
pub struct Matcher {
    pub(crate) groups: Vec<MatchSet>,
}

/// Why a configuration cannot be compiled.
#[derive(Debug, Clone)]
pub enum BuildError {
    /// The engine refuses this pattern of this group.
    BadPattern { group: String, pattern: String },
    /// Each pattern of this group compiles, but the engine refuses them as
    /// one set.
    BadSet { group: String },
}

impl BuildError {
    /// Whether this error is the one that compiling the group `name` with
    /// `patterns` ends in: the first pattern that the engine refuses, or,
    /// where it accepts each, the set.
    pub open spec fn reports(&self, name: Seq<char>, patterns: Seq<Seq<char>>) -> bool {
        match self {
            BuildError::BadPattern { group, pattern } => {
                &&& group@ == name
                &&& exists|i: int|
                    {
                        &&& 0 <= i < patterns.len()
                        &&& all_compile(patterns.take(i))
                        &&& !pattern_compiles(#[trigger] patterns[i])
                        &&& pattern@ == patterns[i]
                    }
            },
            BuildError::BadSet { group } => {
                &&& group@ == name
                &&& all_compile(patterns)
                &&& !set_compiles(patterns)
            },
        }
    }
}

/// Whether the engine accepts every one of `patterns`.
pub open spec fn all_compile(patterns: Seq<Seq<char>>) -> bool {
    forall|i: int| 0 <= i < patterns.len() ==> pattern_compiles(#[trigger] patterns[i])
}

/// Whether a group with these patterns can be compiled.
pub open spec fn group_compiles(patterns: Seq<Seq<char>>) -> bool {
    all_compile(patterns) && set_compiles(patterns)
}

impl MatchSet {
    /// The texts of the group's patterns, in their order.
    pub open(crate) spec fn patterns(&self) -> Seq<Seq<char>> {
        Seq::new(self.rxs@.len(), |i: int| regex_source(self.rxs@[i]))
    }

    /// The group's name and patterns as plain values.
    pub open(crate) spec fn entry(&self) -> (Seq<char>, Seq<Seq<char>>) {
        (self.name@, self.patterns())
    }

    /// The set was compiled from the same patterns as the single regexes.
    pub open(crate) spec fn wf(&self) -> bool {
        regex_set_patterns(self.set) == self.patterns()
    }

    /// Compiles one group: each pattern by itself, then all as a set.
    ///
    /// Fails at the first pattern that the engine refuses; where it accepts
    /// each, fails if it refuses the set.
    pub fn new(name: &str, patterns: &Vec<String>) -> (r: Result<MatchSet, BuildError>)
        ensures
            match r {
                Ok(ms) => {
                    &&& group_compiles(texts(patterns@))
                    &&& ms.wf()
                    &&& ms.entry() == (name@, texts(patterns@))
                },
                Err(e) => !group_compiles(texts(patterns@)) && e.reports(name@, texts(patterns@)),
            },
    {
        let ghost all = texts(patterns@);
        let mut rxs: Vec<Regex> = Vec::new();
        let mut i: usize = 0;
        while i < patterns.len()
            invariant
                i <= patterns@.len(),
                all == texts(patterns@),
                rxs@.len() == i,
                forall|j: int| 0 <= j < i ==> regex_source(#[trigger] rxs@[j]) == all[j],
                all_compile(all.take(i as int)),
            decreases patterns@.len() - i,
        {
            let pattern = &patterns[i];
            assert(pattern@ == all[i as int]);
            match compile(pattern.as_str()) {
                Ok(rx) => {
                    rxs.push(rx);
                },
                Err(_) => {
                    return Err(
                        BuildError::BadPattern { group: name.to_owned(), pattern: pattern.clone() },
                    );
                },
            }
            proof {
                assert forall|j: int| 0 <= j < i + 1 implies pattern_compiles(
                    #[trigger] all.take(i + 1)[j],
                ) by {
                    if j < i {
                        assert(all.take(i as int)[j] == all[j]);
                    }
                }
            }
            i += 1;
        }
        proof {
            assert(all.take(i as int) =~= all);
        }
        match compile_set(patterns) {
            Ok(set) => {
                let ms = MatchSet { name: name.to_owned(), set, rxs };
                proof {
                    assert(ms.patterns() =~= all);
                }
                Ok(ms)
            },
            Err(_) => Err(BuildError::BadSet { group: name.to_owned() }),
        }
    }
}

impl View for Matcher {
    type V = Map<Seq<char>, Seq<Seq<char>>>;

    open(crate) spec fn view(&self) -> Map<Seq<char>, Seq<Seq<char>>> {
        as_map(self.entries())
    }
}

impl Matcher {
    /// The groups as plain values, in the order in which they are held.
    pub open(crate) spec fn entries(&self) -> Seq<(Seq<char>, Seq<Seq<char>>)> {
        Seq::new(self.groups@.len(), |i: int| self.groups@[i].entry())
    }

    /// No two groups share a name, and each group is well formed.
    pub open(crate) spec fn wf(&self) -> bool {
        &&& distinct_names(self.entries())
        &&& forall|i: int| 0 <= i < self.groups@.len() ==> (#[trigger] self.groups@[i]).wf()
    }
}

/// Whether every group of `groups` can be compiled.
pub open spec fn all_groups_compile(groups: Map<Seq<char>, Seq<Seq<char>>>) -> bool {
    forall|name: Seq<char>| groups.dom().contains(name) ==> group_compiles(#[trigger] groups[name])
}

/// Compiles the groups of a configuration, in the order in which the
/// configuration holds them.
///
/// Succeeds exactly when every group can be compiled; the matcher then has
/// the configuration's groups. Otherwise the error is that of the first
/// group that cannot be compiled.
pub fn prepare_matcher(config: Config) -> (r: Result<Matcher, BuildError>)
    requires
        config.wf(),
    ensures
        r is Ok == all_groups_compile(config@),
        match r {
            Ok(matcher) => matcher.wf() && matcher@ == config@ && matcher.entries()
                == config.entries(),
            Err(e) => exists|j: int|
                {
                    &&& 0 <= j < config.entries().len()
                    &&& forall|k: int|
                        0 <= k < j ==> group_compiles((#[trigger] config.entries()[k]).1)
                    &&& e.reports((#[trigger] config.entries()[j]).0, config.entries()[j].1)
                },
        },
{
    let ghost entries = config.entries();
    let mut groups: Vec<MatchSet> = Vec::new();
    let mut j: usize = 0;
    while j < config.groups.len()
        invariant
            j <= config.groups@.len(),
            entries == config.entries(),
            distinct_names(entries),
            groups@.len() == j,
            forall|k: int| 0 <= k < j ==> (#[trigger] groups@[k]).wf(),
            forall|k: int| 0 <= k < j ==> (#[trigger] groups@[k]).entry() == entries[k],
            forall|k: int| 0 <= k < j ==> group_compiles((#[trigger] entries[k]).1),
        decreases config.groups@.len() - j,
    {
        let group = &config.groups[j];
        match MatchSet::new(group.name.as_str(), &group.patterns) {
            Ok(ms) => {
                groups.push(ms);
            },
            Err(e) => {
                proof {
                    lemma_as_map_at(entries, j as int);
                }
                return Err(e);
            },
        }
        j += 1;
    }
    let matcher = Matcher { groups };
    proof {
        assert(matcher.entries() =~= entries);
        assert forall|name: Seq<char>| config@.dom().contains(name) implies group_compiles(
            #[trigger] config@[name],
        ) by {
            let k = choose|k: int| 0 <= k < entries.len() && (#[trigger] entries[k]).0 == name;
            lemma_as_map_at(entries, k);
        }
    }
    Ok(matcher)
}

/// The greatest offset at which a pattern of the group stops matching in
/// `path`, if one of them matches.
pub fn match_len(path: &str, ms: &MatchSet) -> (len: Option<usize>)
    ensures
        len == group_len(ms.entry().1, path@),
{
    let ghost all = ms.patterns();
    let mut longest: Option<usize> = None;
    let mut i: usize = 0;
    while i < ms.rxs.len()
        invariant
            i <= ms.rxs@.len(),
            all == ms.patterns(),
            longest == group_len(all.take(i as int), path@),
        decreases ms.rxs@.len() - i,
    {
        let end = find_end(&ms.rxs[i], path);
        proof {
            assert(all.take(i + 1).drop_last() =~= all.take(i as int));
        }
        longest = longer_of(longest, end);
        i += 1;
    }
    proof {
        assert(all.take(i as int) =~= all);
    }
    longest
}

/// The match length of the group at `j`.
spec fn len_at(
    entries: Seq<(Seq<char>, Seq<Seq<char>>)>,
    j: int,
    path: Seq<char>,
) -> Option<usize> {
    group_len(entries[j].1, path)
}

/// Whether `best` is the greatest match length among the first `k` groups.
spec fn is_best(
    entries: Seq<(Seq<char>, Seq<Seq<char>>)>,
    k: int,
    path: Seq<char>,
    best: Option<usize>,
) -> bool {
    &&& forall|j: int|
        0 <= j < k && (#[trigger] len_at(entries, j, path)) is Some ==> best is Some && len_at(
            entries,
            j,
            path,
        )->0 <= best->0
    &&& best is Some ==> exists|j: int| 0 <= j < k && #[trigger] len_at(entries, j, path) == best
}

/// Whether the group at `j` matches with length `best`.
spec fn reaches(
    entries: Seq<(Seq<char>, Seq<Seq<char>>)>,
    j: int,
    path: Seq<char>,
    best: Option<usize>,
) -> bool {
    best is Some && len_at(entries, j, path) == best
}

/// Whether `top` holds the names of those among the first `k` groups that
/// match with length `best`.
spec fn holds_best(
    entries: Seq<(Seq<char>, Seq<Seq<char>>)>,
    k: int,
    path: Seq<char>,
    best: Option<usize>,
    top: Set<Seq<char>>,
) -> bool {
    &&& forall|j: int|
        0 <= j < k && #[trigger] reaches(entries, j, path, best) ==> top.contains(entries[j].0)
    &&& forall|name: Seq<char>| #[trigger]
        top.contains(name) ==> exists|j: int|
            0 <= j < k && entries[j].0 == name && #[trigger] reaches(entries, j, path, best)
}

/// The groups that reach the greatest match length of all are the leaders.
proof fn lemma_best_are_leaders(
    entries: Seq<(Seq<char>, Seq<Seq<char>>)>,
    path: Seq<char>,
    best: Option<usize>,
    top: Set<Seq<char>>,
)
    requires
        distinct_names(entries),
        is_best(entries, entries.len() as int, path, best),
        holds_best(entries, entries.len() as int, path, best, top),
    ensures
        top == leaders(as_map(entries), path),
{
    let groups = as_map(entries);
    assert forall|name: Seq<char>| top.contains(name) implies leads(groups, path, name) by {
        let j = choose|j: int|
            0 <= j < entries.len() && entries[j].0 == name && #[trigger] reaches(
                entries,
                j,
                path,
                best,
            );
        lemma_as_map_at(entries, j);
        assert forall|other: Seq<char>|
            groups.dom().contains(other) && (#[trigger] group_len(
                groups[other],
                path,
            )) is Some implies group_len(groups[other], path)->0 <= group_len(
            groups[name],
            path,
        )->0 by {
            let k = choose|k: int| 0 <= k < entries.len() && (#[trigger] entries[k]).0 == other;
            lemma_as_map_at(entries, k);
            assert(len_at(entries, k, path) is Some);
        }
    }
    assert forall|name: Seq<char>| leads(groups, path, name) implies top.contains(name) by {
        let j = choose|j: int| 0 <= j < entries.len() && (#[trigger] entries[j]).0 == name;
        lemma_as_map_at(entries, j);
        assert(len_at(entries, j, path) is Some);
        let k = choose|k: int|
            0 <= k < entries.len() && #[trigger] len_at(entries, k, path) == best;
        lemma_as_map_at(entries, k);
        assert(reaches(entries, j, path, best));
    }
}

/// Classifies `path` by match length: the group whose patterns match
/// furthest into the path, or the set of the groups that tie for that.
pub fn do_match2(path: &str, matcher: &Matcher) -> (v: MatchVerdict)
    requires
        matcher.wf(),
    ensures
        v.wf(),
        v@ == verdict(matcher@, path@),
{
    let ghost entries = matcher.entries();
    let mut tally = Tally::new();
    let mut i: usize = 0;
    while i < matcher.groups.len()
        invariant
            i <= matcher.groups@.len(),
            entries == matcher.entries(),
            distinct_names(entries),
            tally.wf(),
            is_best(entries, i as int, path@, tally.best()),
            holds_best(entries, i as int, path@, tally.best(), tally.leaders()),
        decreases matcher.groups@.len() - i,
    {
        let group = &matcher.groups[i];
        let ghost before = tally.best();
        let ghost held = tally.leaders();
        let len = match_len(path, group);
        tally.record(group.name.as_str(), len);
        proof {
            let best = tally.best();
            if best != before {
                assert forall|j: int| 0 <= j < i implies !reaches(entries, j, path@, best) by {
                    if len_at(entries, j, path@) is Some {
                        assert(len_at(entries, j, path@)->0 <= before->0);
                    }
                }
            }
            assert forall|name: Seq<char>| #[trigger]
                tally.leaders().contains(name) implies exists|j: int|
                0 <= j < i + 1 && entries[j].0 == name && #[trigger] reaches(
                    entries,
                    j,
                    path@,
                    best,
                ) by {
                if !(reaches(entries, i as int, path@, best) && name == group.name@) {
                    assert(held.contains(name));
                    let j = choose|j: int|
                        0 <= j < i && entries[j].0 == name && #[trigger] reaches(
                            entries,
                            j,
                            path@,
                            before,
                        );
                    assert(reaches(entries, j, path@, best));
                }
            }
        }
        i += 1;
    }
    proof {
        lemma_best_are_leaders(entries, path@, tally.best(), tally.leaders());
    }
    tally.verdict()
}

/// Whether none of the first `k` groups has a pattern that matches `path`,
/// the group at `at` aside.
spec fn quiet_but(
    entries: Seq<(Seq<char>, Seq<Seq<char>>)>,
    k: int,
    path: Seq<char>,
    at: int,
) -> bool {
    forall|j: int| 0 <= j < k && j != at ==> !any_matches((#[trigger] entries[j]).1, path)
}

/// Classifies `path`.
///
/// Each group's set is asked first whether the group matches at all. Where
/// at most one group does, the verdict is known without measuring a match;
/// only otherwise are the match lengths compared. Either way the verdict is
/// the one by match length.
pub fn do_match(path: &str, matcher: &Matcher) -> (v: MatchVerdict)
    requires
        matcher.wf(),
    ensures
        v.wf(),
        v@ == verdict(matcher@, path@),
{
    let ghost entries = matcher.entries();
    let ghost mut at: int = -1;
    let mut fired = Fired::Nothing;
    let mut i: usize = 0;
    while i < matcher.groups.len()
        invariant
            i <= matcher.groups@.len(),
            entries == matcher.entries(),
            matcher.wf(),
            quiet_but(entries, i as int, path@, at),
            match fired@ {
                FiredView::Nothing => at == -1,
                FiredView::Single(name) => 0 <= at < i && entries[at].0 == name && any_matches(
                    entries[at].1,
                    path@,
                ),
                FiredView::Several => false,
            },
        decreases matcher.groups@.len() - i,
    {
        let group = &matcher.groups[i];
        assert(group.entry() == entries[i as int]);
        if set_is_match(&group.set, path) {
            fired = fired.hit(group.name.as_str());
            if let Fired::Several = fired {
                return do_match2(path, matcher);
            }
            proof {
                at = i as int;
            }
        }
        i += 1;
    }
    proof {
        assert forall|name: Seq<char>|
            matcher@.dom().contains(name) && (at < 0 || name != entries[at].0) implies !any_matches(
            #[trigger] matcher@[name],
            path@,
        ) by {
            let k = choose|k: int| 0 <= k < entries.len() && (#[trigger] entries[k]).0 == name;
            lemma_as_map_at(entries, k);
        }
        if at < 0 {
            law_no_group(matcher@, path@);
        } else {
            lemma_as_map_at(entries, at);
            law_single_group(matcher@, path@, entries[at].0);
        }
    }
    match fired.verdict() {
        Some(v) => v,
        None => do_match2(path, matcher),
    }
}

} // verus!
