//! What a classification is, stated over plain mathematical values.
//!
//! A set of groups is a map from a group's name to its patterns. A group's
//! match length in a path is the greatest offset at which one of its patterns
//! stops matching. The groups that reach the greatest match length lead; a
//! single leader is the path's group, anything else is an ambiguity.

use crate::engine::{any_matches, match_end, pattern_matches};
use crate::groups::{law_merge_order, merged, same_pattern_sets};
use vstd::prelude::*;

verus! {

/// The result of classifying one path, over names as sequences of characters.
pub enum Verdict {
    /// Exactly one group leads.
    Unique(Seq<char>),
    /// No group matches (the empty set), or these groups tie for the lead.
    Ambiguous(Set<Seq<char>>),
}

/// The greater of two optional offsets, where `None` is below every offset.
pub open spec fn longer(a: Option<usize>, b: Option<usize>) -> Option<usize> {
    match (a, b) {
        (None, _) => b,
        (_, None) => a,
        (Some(x), Some(y)) => if x >= y { a } else { b },
    }
}

/// The match length of a group with these patterns in `path`: the greatest
/// end offset over the patterns that match, `None` where none does.
pub open spec fn group_len(patterns: Seq<Seq<char>>, path: Seq<char>) -> Option<usize>
    decreases patterns.len(),
{
    if patterns.len() == 0 {
        None
    } else {
        longer(group_len(patterns.drop_last(), path), match_end(patterns.last(), path))
    }
}

/// Whether the group `name` matches `path` and no group matches further.
pub open spec fn leads(
    groups: Map<Seq<char>, Seq<Seq<char>>>,
    path: Seq<char>,
    name: Seq<char>,
) -> bool {
    &&& groups.dom().contains(name)
    &&& group_len(groups[name], path) is Some
    &&& forall|other: Seq<char>|
        groups.dom().contains(other) && (#[trigger] group_len(groups[other], path)) is Some
            ==> group_len(groups[other], path)->0 <= group_len(groups[name], path)->0
}

/// The names of the groups that lead in `path`.
pub open spec fn leaders(groups: Map<Seq<char>, Seq<Seq<char>>>, path: Seq<char>) -> Set<
    Seq<char>,
> {
    Set::new(|name: Seq<char>| leads(groups, path, name))
}

/// The verdict that a set of leaders stands for: its member where it has
/// exactly one, else the set itself.
pub open spec fn settle(top: Set<Seq<char>>) -> Verdict {
    if exists|name: Seq<char>| top == set![name] {
        Verdict::Unique(choose|name: Seq<char>| top == set![name])
    } else {
        Verdict::Ambiguous(top)
    }
}

/// The verdict on `path`: the single leader, or else the set of leaders.
pub open spec fn verdict(groups: Map<Seq<char>, Seq<Seq<char>>>, path: Seq<char>) -> Verdict {
    settle(leaders(groups, path))
}

/// The leaders once a group called `name` with match length `len` is taken
/// into account, where `top` led before with length `best`: a greater
/// length leads alone, an equal one leads too, a lesser one or none changes
/// nothing.
pub open spec fn tallied(
    best: Option<usize>,
    top: Set<Seq<char>>,
    name: Seq<char>,
    len: Option<usize>,
) -> Set<Seq<char>> {
    match len {
        None => top,
        Some(l) => if best is None || l > best->0 {
            set![name]
        } else if l == best->0 {
            top.insert(name)
        } else {
            top
        },
    }
}

/// A group's match length is that of one of its patterns and bounds all of
/// them; a group has one exactly when one of its patterns matches.
pub proof fn lemma_group_len_is_greatest(patterns: Seq<Seq<char>>, path: Seq<char>)
    ensures
        group_len(patterns, path) is Some <==> any_matches(patterns, path),
        group_len(patterns, path) is Some ==> exists|i: int|
            0 <= i < patterns.len() && match_end(#[trigger] patterns[i], path) == group_len(
                patterns,
                path,
            ),
        forall|i: int|
            0 <= i < patterns.len() && pattern_matches(#[trigger] patterns[i], path)
                ==> group_len(patterns, path) is Some && match_end(patterns[i], path)->0
                <= group_len(patterns, path)->0,
    decreases patterns.len(),
{
    if patterns.len() > 0 {
        let init = patterns.drop_last();
        lemma_group_len_is_greatest(init, path);
        let n = patterns.len() - 1;
        if group_len(patterns, path) is Some {
            if group_len(patterns, path) == match_end(patterns.last(), path) {
                assert(match_end(patterns[n], path) == group_len(patterns, path));
            } else {
                let i = choose|i: int|
                    0 <= i < init.len() && match_end(#[trigger] init[i], path) == group_len(
                        init,
                        path,
                    );
                assert(match_end(patterns[i], path) == group_len(patterns, path));
            }
        }
        assert forall|i: int|
            0 <= i < patterns.len() && pattern_matches(
                #[trigger] patterns[i],
                path,
            ) implies group_len(patterns, path) is Some && match_end(patterns[i], path)->0
            <= group_len(patterns, path)->0 by {
            if i < n {
                assert(pattern_matches(init[i], path));
            }
        }
        if any_matches(patterns, path) {
            let i = choose|i: int|
                0 <= i < patterns.len() && pattern_matches(#[trigger] patterns[i], path);
            assert(pattern_matches(patterns[i], path));
        }
    }
}

/// A single leader is the verdict.
pub proof fn lemma_settle_unique(top: Set<Seq<char>>, name: Seq<char>)
    requires
        top == set![name],
    ensures
        settle(top) == Verdict::Unique(name),
{
    let chosen = choose|n: Seq<char>| top == set![n];
    assert(set![chosen].contains(name));
}

/// Leaders that are not exactly one are an ambiguity.
pub proof fn lemma_settle_ambiguous(top: Set<Seq<char>>)
    requires
        top.finite(),
        top.len() != 1,
    ensures
        settle(top) == Verdict::Ambiguous(top),
{
    if exists|n: Seq<char>| top == set![n] {
        let n = choose|n: Seq<char>| top == set![n];
        assert(set![n].len() == 1);
    }
}

/// A path that the patterns of exactly one group match belongs to that
/// group.
pub proof fn law_single_group(
    groups: Map<Seq<char>, Seq<Seq<char>>>,
    path: Seq<char>,
    name: Seq<char>,
)
    requires
        groups.dom().contains(name),
        any_matches(groups[name], path),
        forall|other: Seq<char>|
            groups.dom().contains(other) && other != name ==> !any_matches(
                #[trigger] groups[other],
                path,
            ),
    ensures
        verdict(groups, path) == Verdict::Unique(name),
{
    lemma_group_len_is_greatest(groups[name], path);
    assert forall|other: Seq<char>|
        groups.dom().contains(other) && other != name implies (#[trigger] group_len(
        groups[other],
        path,
    )) is None by {
        lemma_group_len_is_greatest(groups[other], path);
    }
    assert(leaders(groups, path) =~= set![name]);
    lemma_settle_unique(leaders(groups, path), name);
}

/// A path that no group's patterns match gets the empty ambiguity.
pub proof fn law_no_group(groups: Map<Seq<char>, Seq<Seq<char>>>, path: Seq<char>)
    requires
        forall|name: Seq<char>|
            groups.dom().contains(name) ==> !any_matches(#[trigger] groups[name], path),
    ensures
        verdict(groups, path) == Verdict::Ambiguous(Set::empty()),
{
    assert forall|name: Seq<char>| !leads(groups, path, name) by {
        if groups.dom().contains(name) {
            lemma_group_len_is_greatest(groups[name], path);
        }
    }
    assert(leaders(groups, path) =~= Set::<Seq<char>>::empty());
    lemma_settle_ambiguous(leaders(groups, path));
}

/// Two groups that reach the same match length, which no third group
/// reaches, are reported together, and only they.
pub proof fn law_two_way_tie(
    groups: Map<Seq<char>, Seq<Seq<char>>>,
    path: Seq<char>,
    first: Seq<char>,
    second: Seq<char>,
)
    requires
        groups.dom().contains(first),
        groups.dom().contains(second),
        first != second,
        group_len(groups[first], path) is Some,
        group_len(groups[first], path) == group_len(groups[second], path),
        forall|other: Seq<char>|
            groups.dom().contains(other) && other != first && other != second ==> {
                let len = #[trigger] group_len(groups[other], path);
                len is None || len->0 < group_len(groups[first], path)->0
            },
    ensures
        verdict(groups, path) == Verdict::Ambiguous(set![first, second]),
{
    assert forall|name: Seq<char>| leads(groups, path, name) implies name == first || name
        == second by {
        if name != first && name != second {
            assert(group_len(groups[first], path)->0 <= group_len(groups[name], path)->0);
        }
    }
    assert(leaders(groups, path) =~= set![first, second]);
    assert(set![first, second].len() == 2) by {
        assert(set![first, second].remove(second) =~= set![first]);
    }
    lemma_settle_ambiguous(leaders(groups, path));
}

/// The names of the groups with a pattern that matches somewhere in `path`.
pub open spec fn firing(groups: Map<Seq<char>, Seq<Seq<char>>>, path: Seq<char>) -> Set<
    Seq<char>,
> {
    Set::new(|name: Seq<char>| groups.dom().contains(name) && any_matches(groups[name], path))
}

/// The verdict that can be given without measuring any match: where no
/// group fires, the empty ambiguity; where one fires, that group; where
/// more fire, none.
pub open spec fn quick_verdict(
    groups: Map<Seq<char>, Seq<Seq<char>>>,
    path: Seq<char>,
) -> Option<Verdict> {
    let hit = firing(groups, path);
    if hit == Set::<Seq<char>>::empty() {
        Some(Verdict::Ambiguous(Set::empty()))
    } else if exists|name: Seq<char>| hit == set![name] {
        Some(Verdict::Unique(choose|name: Seq<char>| hit == set![name]))
    } else {
        None
    }
}

/// Whenever the quick verdict exists, it is the verdict by match length.
pub proof fn law_quick_verdict_agrees(groups: Map<Seq<char>, Seq<Seq<char>>>, path: Seq<char>)
    ensures
        quick_verdict(groups, path) matches Some(v) ==> v == verdict(groups, path),
{
    let hit = firing(groups, path);
    if hit == Set::<Seq<char>>::empty() {
        assert forall|name: Seq<char>| groups.dom().contains(name) implies !any_matches(
            #[trigger] groups[name],
            path,
        ) by {
            assert(!hit.contains(name));
        }
        law_no_group(groups, path);
    } else if exists|name: Seq<char>| hit == set![name] {
        let name = choose|name: Seq<char>| hit == set![name];
        assert(hit.contains(name));
        assert forall|other: Seq<char>|
            groups.dom().contains(other) && other != name implies !any_matches(
            #[trigger] groups[other],
            path,
        ) by {
            assert(!hit.contains(other));
        }
        law_single_group(groups, path, name);
    }
}

/// Every pattern of `p` that matches is bounded by the match length of `q`,
/// where `q` holds all patterns of `p`.
proof fn lemma_group_len_covers(p: Seq<Seq<char>>, q: Seq<Seq<char>>, path: Seq<char>)
    requires
        p.to_set() == q.to_set(),
    ensures
        group_len(p, path) is Some ==> group_len(q, path) is Some && group_len(p, path)->0
            <= group_len(q, path)->0,
{
    lemma_group_len_is_greatest(p, path);
    lemma_group_len_is_greatest(q, path);
    if group_len(p, path) is Some {
        let i = choose|i: int|
            0 <= i < p.len() && match_end(#[trigger] p[i], path) == group_len(p, path);
        assert(p.to_set().contains(p[i]));
        let j = choose|j: int| 0 <= j < q.len() && q[j] == p[i];
        assert(pattern_matches(q[j], path));
    }
}

/// A group's match length depends on the set of its patterns only, not on
/// their order.
pub proof fn law_group_len_by_set(p: Seq<Seq<char>>, q: Seq<Seq<char>>, path: Seq<char>)
    requires
        p.to_set() == q.to_set(),
    ensures
        group_len(p, path) == group_len(q, path),
        any_matches(p, path) == any_matches(q, path),
{
    lemma_group_len_covers(p, q, path);
    lemma_group_len_covers(q, p, path);
    lemma_group_len_is_greatest(p, path);
    lemma_group_len_is_greatest(q, path);
}

/// Groups with the same pattern sets classify every path alike.
pub proof fn law_verdict_by_pattern_sets(
    a: Map<Seq<char>, Seq<Seq<char>>>,
    b: Map<Seq<char>, Seq<Seq<char>>>,
    path: Seq<char>,
)
    requires
        same_pattern_sets(a, b),
    ensures
        firing(a, path) == firing(b, path),
        verdict(a, path) == verdict(b, path),
{
    assert forall|name: Seq<char>| a.dom().contains(name) implies group_len(a[name], path)
        == group_len(b[name], path) && any_matches(a[name], path) == any_matches(
        b[name],
        path,
    ) by {
        law_group_len_by_set(a[name], b[name], path);
    }
    assert forall|name: Seq<char>| leads(a, path, name) == leads(b, path, name) by {
        if leads(a, path, name) {
            assert forall|other: Seq<char>|
                b.dom().contains(other) && (#[trigger] group_len(
                    b[other],
                    path,
                )) is Some implies group_len(b[other], path)->0 <= group_len(b[name], path)->0 by {
                assert(group_len(a[other], path) is Some);
            }
        }
        if leads(b, path, name) {
            assert forall|other: Seq<char>|
                a.dom().contains(other) && (#[trigger] group_len(
                    a[other],
                    path,
                )) is Some implies group_len(a[other], path)->0 <= group_len(a[name], path)->0 by {
                assert(group_len(b[other], path) is Some);
            }
        }
    }
    assert(leaders(a, path) =~= leaders(b, path));
}

/// The order in which configurations are merged changes no verdict.
pub proof fn law_merge_order_verdict(
    xs: Seq<Map<Seq<char>, Seq<Seq<char>>>>,
    ys: Seq<Map<Seq<char>, Seq<Seq<char>>>>,
    path: Seq<char>,
)
    requires
        xs.to_multiset() == ys.to_multiset(),
    ensures
        firing(merged(xs), path) == firing(merged(ys), path),
        verdict(merged(xs), path) == verdict(merged(ys), path),
{
    law_merge_order(xs, ys);
    law_verdict_by_pattern_sets(merged(xs), merged(ys), path);
}

} // verus!
