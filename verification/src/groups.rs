//! Sets of groups as maps from names to patterns, and how they merge.
//!
//! A configuration holds its groups in a list; what it means is the map from
//! each name to the patterns under it. Merging configurations concatenates,
//! name by name, the patterns that each one holds.

use vstd::prelude::*;

verus! {

/// The patterns that `groups` holds under `name`: none where it has no such
/// group.
pub open spec fn patterns_of(
    groups: Map<Seq<char>, Seq<Seq<char>>>,
    name: Seq<char>,
) -> Seq<Seq<char>> {
    if groups.dom().contains(name) {
        groups[name]
    } else {
        Seq::empty()
    }
}

/// Whether a list of named pattern lists names a group at most once.
pub open spec fn distinct_names(entries: Seq<(Seq<char>, Seq<Seq<char>>)>) -> bool {
    forall|i: int, j: int|
        0 <= i < entries.len() && 0 <= j < entries.len() && i != j ==> (#[trigger] entries[i]).0
            != (#[trigger] entries[j]).0
}

/// Whether `entries` holds a group called `name`.
pub open spec fn has_name(entries: Seq<(Seq<char>, Seq<Seq<char>>)>, name: Seq<char>) -> bool {
    exists|i: int| 0 <= i < entries.len() && (#[trigger] entries[i]).0 == name
}

/// The map from names to patterns that a list of named pattern lists stands
/// for.
pub open spec fn as_map(entries: Seq<(Seq<char>, Seq<Seq<char>>)>) -> Map<
    Seq<char>,
    Seq<Seq<char>>,
> {
    Map::new(
        |name: Seq<char>| has_name(entries, name),
        |name: Seq<char>|
            entries[choose|i: int| 0 <= i < entries.len() && (#[trigger] entries[i]).0 == name].1,
    )
}

/// In a list with distinct names, the map gives each entry's patterns under
/// its name.
pub proof fn lemma_as_map_at(entries: Seq<(Seq<char>, Seq<Seq<char>>)>, i: int)
    requires
        distinct_names(entries),
        0 <= i < entries.len(),
    ensures
        as_map(entries).dom().contains(entries[i].0),
        as_map(entries)[entries[i].0] == entries[i].1,
{
    let name = entries[i].0;
    let k = choose|k: int| 0 <= k < entries.len() && (#[trigger] entries[k]).0 == name;
    assert(k == i);
}

/// The names of a list's map are finitely many.
pub proof fn lemma_as_map_finite(entries: Seq<(Seq<char>, Seq<Seq<char>>)>)
    ensures
        as_map(entries).dom().finite(),
    decreases entries.len(),
{
    if entries.len() == 0 {
        assert(as_map(entries).dom() =~= Set::<Seq<char>>::empty());
    } else {
        let init = entries.drop_last();
        lemma_as_map_finite(init);
        assert forall|name: Seq<char>|
            as_map(entries).dom().contains(name) <==> as_map(init).dom().insert(
                entries.last().0,
            ).contains(name) by {
            if has_name(entries, name) {
                let i = choose|i: int| 0 <= i < entries.len() && (#[trigger] entries[i]).0 == name;
                if i < init.len() {
                    assert(init[i].0 == name);
                }
            }
            if has_name(init, name) {
                let i = choose|i: int| 0 <= i < init.len() && (#[trigger] init[i]).0 == name;
                assert(entries[i].0 == name);
            }
            if name == entries.last().0 {
                assert(entries[entries.len() - 1].0 == name);
            }
        }
        assert(as_map(entries).dom() =~= as_map(init).dom().insert(entries.last().0));
    }
}

/// A list with distinct names has as many groups as entries.
pub proof fn lemma_as_map_len(entries: Seq<(Seq<char>, Seq<Seq<char>>)>)
    requires
        distinct_names(entries),
    ensures
        as_map(entries).dom().finite(),
        as_map(entries).dom().len() == entries.len(),
    decreases entries.len(),
{
    lemma_as_map_finite(entries);
    if entries.len() == 0 {
        assert(as_map(entries).dom() =~= Set::<Seq<char>>::empty());
    } else {
        let init = entries.drop_last();
        let last = entries.last();
        if has_name(init, last.0) {
            let i = choose|i: int| 0 <= i < init.len() && (#[trigger] init[i]).0 == last.0;
            assert(entries[i].0 == entries[entries.len() - 1].0);
        }
        lemma_as_map_len(init);
        lemma_as_map_push(init, last.0, last.1);
        assert(entries =~= init.push((last.0, last.1)));
    }
}

/// Appending a group under a new name inserts it into the map.
pub proof fn lemma_as_map_push(
    entries: Seq<(Seq<char>, Seq<Seq<char>>)>,
    name: Seq<char>,
    patterns: Seq<Seq<char>>,
)
    requires
        distinct_names(entries),
        !has_name(entries, name),
    ensures
        distinct_names(entries.push((name, patterns))),
        as_map(entries.push((name, patterns))) == as_map(entries).insert(name, patterns),
{
    let after = entries.push((name, patterns));
    assert forall|i: int, j: int|
        0 <= i < after.len() && 0 <= j < after.len() && i != j implies (#[trigger] after[i]).0 != (
    #[trigger] after[j]).0 by {
        if i < entries.len() {
            assert(entries[i].0 == after[i].0);
        }
        if j < entries.len() {
            assert(entries[j].0 == after[j].0);
        }
    }
    let want = as_map(entries).insert(name, patterns);
    assert forall|n: Seq<char>| as_map(after).dom().contains(n) <==> want.dom().contains(n) by {
        if has_name(after, n) {
            let i = choose|i: int| 0 <= i < after.len() && (#[trigger] after[i]).0 == n;
            if i < entries.len() {
                assert(entries[i].0 == n);
            }
        }
        if has_name(entries, n) {
            let i = choose|i: int| 0 <= i < entries.len() && (#[trigger] entries[i]).0 == n;
            assert(after[i].0 == n);
        }
        if n == name {
            assert(after[entries.len() as int].0 == n);
        }
    }
    assert forall|n: Seq<char>| as_map(after).dom().contains(n) implies as_map(after)[n]
        == want[n] by {
        let i = choose|i: int| 0 <= i < after.len() && (#[trigger] after[i]).0 == n;
        lemma_as_map_at(after, i);
        if i < entries.len() {
            lemma_as_map_at(entries, i);
        }
    }
}

/// Replacing the patterns of the entry at `i` replaces them in the map.
pub proof fn lemma_as_map_update(
    entries: Seq<(Seq<char>, Seq<Seq<char>>)>,
    i: int,
    patterns: Seq<Seq<char>>,
)
    requires
        distinct_names(entries),
        0 <= i < entries.len(),
    ensures
        distinct_names(entries.update(i, (entries[i].0, patterns))),
        as_map(entries.update(i, (entries[i].0, patterns))) == as_map(entries).insert(
            entries[i].0,
            patterns,
        ),
{
    let name = entries[i].0;
    let after = entries.update(i, (name, patterns));
    assert forall|a: int, b: int|
        0 <= a < after.len() && 0 <= b < after.len() && a != b implies (#[trigger] after[a]).0 != (
    #[trigger] after[b]).0 by {
        assert(entries[a].0 == after[a].0);
    }
    let want = as_map(entries).insert(name, patterns);
    assert forall|n: Seq<char>| as_map(after).dom().contains(n) <==> want.dom().contains(n) by {
        if has_name(after, n) {
            let k = choose|k: int| 0 <= k < after.len() && (#[trigger] after[k]).0 == n;
            assert(entries[k].0 == n);
        }
        if has_name(entries, n) {
            let k = choose|k: int| 0 <= k < entries.len() && (#[trigger] entries[k]).0 == n;
            assert(after[k].0 == n);
        }
        if n == name {
            assert(after[i].0 == n);
        }
    }
    assert forall|n: Seq<char>| as_map(after).dom().contains(n) implies as_map(after)[n]
        == want[n] by {
        let k = choose|k: int| 0 <= k < after.len() && (#[trigger] after[k]).0 == n;
        lemma_as_map_at(after, k);
        if k != i {
            lemma_as_map_at(entries, k);
        }
    }
}

/// The groups of `base` and of `more` together: a group of both has the
/// patterns of `base` first, then those of `more`.
pub open spec fn absorb(
    base: Map<Seq<char>, Seq<Seq<char>>>,
    more: Map<Seq<char>, Seq<Seq<char>>>,
) -> Map<Seq<char>, Seq<Seq<char>>> {
    Map::new(
        |name: Seq<char>| base.dom().contains(name) || more.dom().contains(name),
        |name: Seq<char>| patterns_of(base, name) + patterns_of(more, name),
    )
}

/// The groups of a list of configurations, merged in the order of the list.
pub open spec fn merged(configs: Seq<Map<Seq<char>, Seq<Seq<char>>>>) -> Map<
    Seq<char>,
    Seq<Seq<char>>,
>
    decreases configs.len(),
{
    if configs.len() == 0 {
        Map::empty()
    } else {
        absorb(merged(configs.drop_last()), configs.last())
    }
}

/// Absorbing nothing changes nothing.
pub proof fn lemma_absorb_empty(base: Map<Seq<char>, Seq<Seq<char>>>)
    ensures
        absorb(base, Map::empty()) == base,
{
    assert forall|name: Seq<char>| base.dom().contains(name) implies absorb(
        base,
        Map::empty(),
    )[name] == base[name] by {
        assert(base[name] + Seq::<Seq<char>>::empty() =~= base[name]);
    }
}

/// Absorbing one group more appends its patterns to what `base` holds under
/// its name.
pub proof fn lemma_absorb_insert(
    base: Map<Seq<char>, Seq<Seq<char>>>,
    more: Map<Seq<char>, Seq<Seq<char>>>,
    name: Seq<char>,
    patterns: Seq<Seq<char>>,
)
    requires
        !more.dom().contains(name),
    ensures
        patterns_of(absorb(base, more), name) == patterns_of(base, name),
        absorb(base, more.insert(name, patterns)) == absorb(base, more).insert(
            name,
            patterns_of(base, name) + patterns,
        ),
{
    assert(patterns_of(base, name) + Seq::<Seq<char>>::empty() =~= patterns_of(base, name));
}

/// Whether two sets of groups have the same names and, under each name,
/// the same patterns up to order and repetition.
pub open spec fn same_pattern_sets(
    a: Map<Seq<char>, Seq<Seq<char>>>,
    b: Map<Seq<char>, Seq<Seq<char>>>,
) -> bool {
    &&& a.dom() == b.dom()
    &&& forall|name: Seq<char>| #[trigger]
        a.dom().contains(name) ==> a[name].to_set() == b[name].to_set()
}

/// Whether one of `configs` holds `pattern` under `name`.
pub open spec fn declared(
    configs: Seq<Map<Seq<char>, Seq<Seq<char>>>>,
    name: Seq<char>,
    pattern: Seq<char>,
) -> bool {
    exists|i: int|
        0 <= i < configs.len() && (#[trigger] configs[i]).dom().contains(name)
            && configs[i][name].contains(pattern)
}

/// Whether one of `configs` has a group called `name`.
pub open spec fn named(configs: Seq<Map<Seq<char>, Seq<Seq<char>>>>, name: Seq<char>) -> bool {
    exists|i: int| 0 <= i < configs.len() && (#[trigger] configs[i]).dom().contains(name)
}

/// The merged configuration has the groups that some configuration has,
/// and under each name the patterns that some configuration has there.
pub proof fn lemma_merged_members(configs: Seq<Map<Seq<char>, Seq<Seq<char>>>>)
    ensures
        forall|name: Seq<char>| #[trigger]
            merged(configs).dom().contains(name) <==> named(configs, name),
        forall|name: Seq<char>, pattern: Seq<char>|
            merged(configs).dom().contains(name) ==> (#[trigger] merged(configs)[name].contains(
                pattern,
            ) <==> declared(configs, name, pattern)),
    decreases configs.len(),
{
    if configs.len() > 0 {
        let init = configs.drop_last();
        let last = configs.last();
        let n = configs.len() - 1;
        lemma_merged_members(init);
        assert(merged(configs) == absorb(merged(init), last));
        assert forall|name: Seq<char>| #[trigger]
            merged(configs).dom().contains(name) <==> named(configs, name) by {
            assert(merged(init).dom().contains(name) <==> named(init, name));
            if named(init, name) {
                let i = choose|i: int|
                    0 <= i < init.len() && (#[trigger] init[i]).dom().contains(name);
                assert(configs[i].dom().contains(name));
            }
            if last.dom().contains(name) {
                assert(configs[n].dom().contains(name));
            }
            if named(configs, name) {
                let i = choose|i: int|
                    0 <= i < configs.len() && (#[trigger] configs[i]).dom().contains(name);
                if i < n {
                    assert(init[i].dom().contains(name));
                }
            }
        }
        assert forall|name: Seq<char>, pattern: Seq<char>|
            merged(configs).dom().contains(name) implies (#[trigger] merged(
            configs,
        )[name].contains(pattern) <==> declared(configs, name, pattern)) by {
            let before = patterns_of(merged(init), name);
            let more = patterns_of(last, name);
            assert(merged(configs)[name] == before + more);
            if (before + more).contains(pattern) {
                let k = choose|k: int|
                    0 <= k < (before + more).len() && (before + more)[k] == pattern;
                if k < before.len() {
                    assert(before[k] == pattern);
                    assert(merged(init)[name].contains(pattern));
                    let i = choose|i: int|
                        0 <= i < init.len() && (#[trigger] init[i]).dom().contains(name)
                            && init[i][name].contains(pattern);
                    assert(configs[i].dom().contains(name) && configs[i][name].contains(pattern));
                } else {
                    assert(more[k - before.len()] == pattern);
                    assert(configs[n].dom().contains(name) && configs[n][name].contains(pattern));
                }
            }
            if declared(configs, name, pattern) {
                let i = choose|i: int|
                    0 <= i < configs.len() && (#[trigger] configs[i]).dom().contains(name)
                        && configs[i][name].contains(pattern);
                if i < n {
                    assert(init[i].dom().contains(name) && init[i][name].contains(pattern));
                    assert(declared(init, name, pattern));
                    assert(named(init, name));
                    assert(merged(init).dom().contains(name));
                    assert(merged(init)[name].contains(pattern));
                    let k = choose|k: int| 0 <= k < before.len() && before[k] == pattern;
                    assert((before + more)[k] == pattern);
                } else {
                    let k = choose|k: int| 0 <= k < more.len() && more[k] == pattern;
                    assert((before + more)[before.len() + k] == pattern);
                }
            }
        }
    }
}

/// Each member of a list is a member of every reordering of it.
proof fn lemma_reordered_holds(
    xs: Seq<Map<Seq<char>, Seq<Seq<char>>>>,
    ys: Seq<Map<Seq<char>, Seq<Seq<char>>>>,
    i: int,
)
    requires
        xs.to_multiset() == ys.to_multiset(),
        0 <= i < xs.len(),
    ensures
        ys.contains(xs[i]),
{
    vstd::seq_lib::to_multiset_contains(xs, xs[i]);
    vstd::seq_lib::to_multiset_contains(ys, xs[i]);
}

/// Merging the same configurations in another order gives the same groups
/// with the same pattern sets.
pub proof fn law_merge_order(
    xs: Seq<Map<Seq<char>, Seq<Seq<char>>>>,
    ys: Seq<Map<Seq<char>, Seq<Seq<char>>>>,
)
    requires
        xs.to_multiset() == ys.to_multiset(),
    ensures
        same_pattern_sets(merged(xs), merged(ys)),
{
    lemma_merged_members(xs);
    lemma_merged_members(ys);
    assert forall|name: Seq<char>| named(xs, name) == named(ys, name) by {
        if named(xs, name) {
            let i = choose|i: int| 0 <= i < xs.len() && (#[trigger] xs[i]).dom().contains(name);
            lemma_reordered_holds(xs, ys, i);
            let j = choose|j: int| 0 <= j < ys.len() && ys[j] == xs[i];
            assert(ys[j].dom().contains(name));
        }
        if named(ys, name) {
            let i = choose|i: int| 0 <= i < ys.len() && (#[trigger] ys[i]).dom().contains(name);
            lemma_reordered_holds(ys, xs, i);
            let j = choose|j: int| 0 <= j < xs.len() && xs[j] == ys[i];
            assert(xs[j].dom().contains(name));
        }
    }
    assert forall|name: Seq<char>, pattern: Seq<char>|
        declared(xs, name, pattern) == declared(ys, name, pattern) by {
        if declared(xs, name, pattern) {
            let i = choose|i: int|
                0 <= i < xs.len() && (#[trigger] xs[i]).dom().contains(name)
                    && xs[i][name].contains(pattern);
            lemma_reordered_holds(xs, ys, i);
            let j = choose|j: int| 0 <= j < ys.len() && ys[j] == xs[i];
            assert(ys[j].dom().contains(name) && ys[j][name].contains(pattern));
        }
        if declared(ys, name, pattern) {
            let i = choose|i: int|
                0 <= i < ys.len() && (#[trigger] ys[i]).dom().contains(name)
                    && ys[i][name].contains(pattern);
            lemma_reordered_holds(ys, xs, i);
            let j = choose|j: int| 0 <= j < xs.len() && xs[j] == ys[i];
            assert(xs[j].dom().contains(name) && xs[j][name].contains(pattern));
        }
    }
    assert(merged(xs).dom() =~= merged(ys).dom());
    assert forall|name: Seq<char>| #[trigger] merged(xs).dom().contains(name) implies merged(
        xs,
    )[name].to_set() == merged(ys)[name].to_set() by {
        assert forall|pattern: Seq<char>|
            merged(xs)[name].to_set().contains(pattern) == merged(ys)[name].to_set().contains(
                pattern,
            ) by {
            assert(merged(xs)[name].contains(pattern) == declared(xs, name, pattern));
        }
    }
}

/// Absorbing is associative.
pub proof fn law_absorb_associative(
    a: Map<Seq<char>, Seq<Seq<char>>>,
    b: Map<Seq<char>, Seq<Seq<char>>>,
    c: Map<Seq<char>, Seq<Seq<char>>>,
)
    ensures
        absorb(absorb(a, b), c) == absorb(a, absorb(b, c)),
{
    let left = absorb(absorb(a, b), c);
    let right = absorb(a, absorb(b, c));
    assert forall|name: Seq<char>| left.dom().contains(name) implies left[name]
        == right[name] by {
        let pa = patterns_of(a, name);
        let pb = patterns_of(b, name);
        let pc = patterns_of(c, name);
        assert(pa + Seq::<Seq<char>>::empty() =~= pa);
        assert(Seq::<Seq<char>>::empty() + pb =~= pb);
        assert(Seq::<Seq<char>>::empty() + pc =~= pc);
    }
}

/// Merging two lists one after the other is merging each and absorbing the
/// second result into the first.
pub proof fn law_merge_concat(
    xs: Seq<Map<Seq<char>, Seq<Seq<char>>>>,
    ys: Seq<Map<Seq<char>, Seq<Seq<char>>>>,
)
    ensures
        merged(xs + ys) == absorb(merged(xs), merged(ys)),
    decreases ys.len(),
{
    if ys.len() == 0 {
        lemma_absorb_empty(merged(xs));
    } else {
        assert((xs + ys).drop_last() =~= xs + ys.drop_last());
        law_merge_concat(xs, ys.drop_last());
        law_absorb_associative(merged(xs), merged(ys.drop_last()), ys.last());
    }
}

} // verus!
