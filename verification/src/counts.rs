//! Grouping seen by how often each entry occurs. Which order the entries of
//! a pool stand in does not decide which entries a rule takes, only in which
//! order they land in its group.

use crate::classifier::{
    apply_rule, grouped, grouping_after, holding, lacking, lemma_grouped_conserves,
    lemma_grouping_conserves, Grouping,
};
use crate::representation::{Direction, MatchRule, SortKeys};
use crate::seqs::lemma_filter_count;
use crate::sorter::{
    lemma_not_later_transitive, lemma_precedes_asymmetric, lemma_sorted_entries, precedes,
    sorted_entries, sorted_groups,
};
use crate::text::{is_substring, lemma_lex_total};
use vstd::multiset::Multiset;
use vstd::prelude::*;
use vstd::relations::total_ordering;
use vstd::seq_lib::{
    lemma_sorted_unique, to_multiset_contains, to_multiset_len, to_multiset_remove,
};

verus! {

/// Two sequences of groups of the same length whose groups hold, place by
/// place, the same entries equally often.
pub open spec fn same_groups(first: Seq<Seq<Seq<char>>>, second: Seq<Seq<Seq<char>>>) -> bool {
    &&& first.len() == second.len()
    &&& forall|j: int|
        0 <= j < first.len() ==> (#[trigger] first[j]).to_multiset() == second[j].to_multiset()
}

/// The second state is the first one with the entries of `dropped` missing
/// from its pool.
pub open spec fn follows(first: Grouping, second: Grouping, dropped: Multiset<Seq<char>>) -> bool {
    &&& same_groups(first.groups, second.groups)
    &&& first.catch_all == second.catch_all
    &&& second.pool.to_multiset().add(dropped) == first.pool.to_multiset()
}

/// How a rule changes the pool, entry by entry: an `Exact` rule takes one of
/// its text if there is one, a `Contains` rule all that contain its text.
pub proof fn lemma_apply_rule_count(state: Grouping, rule: MatchRule, x: Seq<char>)
    ensures
        apply_rule(state, rule).pool.to_multiset().count(x) == match rule {
            MatchRule::Exact(text) => if x == text && state.pool.to_multiset().count(x) > 0 {
                (state.pool.to_multiset().count(x) - 1) as nat
            } else {
                state.pool.to_multiset().count(x)
            },
            MatchRule::Contains(text) => if is_substring(text, x) {
                0
            } else {
                state.pool.to_multiset().count(x)
            },
            MatchRule::Default(_) => state.pool.to_multiset().count(x),
        },
{
    match rule {
        MatchRule::Exact(text) => {
            to_multiset_contains(state.pool, text);
            if state.pool.contains(text) {
                state.pool.index_of_first_ensures(text);
                to_multiset_remove(state.pool, state.pool.index_of_first(text)->0);
            }
        },
        MatchRule::Contains(text) => {
            lemma_filter_count(state.pool, holding(text), x);
            lemma_filter_count(state.pool, lacking(text), x);
            if state.pool.filter(holding(text)).len() == 0 {
                to_multiset_contains(state.pool.filter(holding(text)), x);
            }
        },
        MatchRule::Default(_) => {},
    }
}

/// The pool only shrinks: what is left at the end was in the pool after any
/// number of rules.
pub proof fn lemma_pool_shrinks(
    entries: Seq<Seq<char>>,
    rules: Seq<MatchRule>,
    count: int,
    x: Seq<char>,
)
    requires
        0 <= count <= rules.len(),
    ensures
        grouping_after(entries, rules).pool.to_multiset().count(x) <= grouping_after(
            entries,
            rules.take(count),
        ).pool.to_multiset().count(x),
    decreases rules.len(),
{
    if count == rules.len() {
        assert(rules.take(count) =~= rules);
    } else {
        lemma_pool_shrinks(entries, rules.drop_last(), count, x);
        assert(rules.drop_last().take(count) =~= rules.take(count));
        lemma_apply_rule_count(grouping_after(entries, rules.drop_last()), rules.last(), x);
    }
}

/// Grouping a second sequence that lacks only entries which the first
/// grouping leaves in its pool at the end goes the same way, rule by rule.
proof fn lemma_grouping_follows(
    entries: Seq<Seq<char>>,
    again: Seq<Seq<char>>,
    rules: Seq<MatchRule>,
    dropped: Multiset<Seq<char>>,
    count: int,
)
    requires
        0 <= count <= rules.len(),
        again.to_multiset().add(dropped) == entries.to_multiset(),
        dropped.subset_of(grouping_after(entries, rules).pool.to_multiset()),
    ensures
        follows(
            grouping_after(entries, rules.take(count)),
            grouping_after(again, rules.take(count)),
            dropped,
        ),
    decreases count,
{
    if count > 0 {
        let prefix = rules.take(count);
        let rule = rules[count - 1];
        let first = grouping_after(entries, rules.take(count - 1));
        let second = grouping_after(again, rules.take(count - 1));
        let first_next = apply_rule(first, rule);
        let second_next = apply_rule(second, rule);
        lemma_grouping_follows(entries, again, rules, dropped, count - 1);
        assert(prefix.drop_last() =~= rules.take(count - 1));
        assert forall|x: Seq<char>|
            dropped.count(x) <= #[trigger] first_next.pool.to_multiset().count(x) by {
            lemma_pool_shrinks(entries, rules, count, x);
        }
        match rule {
            MatchRule::Exact(text) => {
                lemma_apply_rule_count(first, rule, text);
                to_multiset_contains(first.pool, text);
                to_multiset_contains(second.pool, text);
                assert forall|x: Seq<char>|
                    second_next.pool.to_multiset().add(dropped).count(x)
                        == first_next.pool.to_multiset().count(x) by {
                    lemma_apply_rule_count(first, rule, x);
                    lemma_apply_rule_count(second, rule, x);
                }
                assert(second_next.pool.to_multiset().add(dropped)
                    =~= first_next.pool.to_multiset());
            },
            MatchRule::Contains(text) => {
                let taken = first.pool.filter(holding(text));
                let taken_again = second.pool.filter(holding(text));
                assert forall|x: Seq<char>|
                    taken.to_multiset().count(x) == taken_again.to_multiset().count(x) by {
                    lemma_filter_count(first.pool, holding(text), x);
                    lemma_filter_count(second.pool, holding(text), x);
                    lemma_apply_rule_count(first, rule, x);
                }
                assert(taken.to_multiset() =~= taken_again.to_multiset());
                to_multiset_len(taken);
                to_multiset_len(taken_again);
                assert forall|x: Seq<char>|
                    second_next.pool.to_multiset().add(dropped).count(x)
                        == first_next.pool.to_multiset().count(x) by {
                    lemma_apply_rule_count(first, rule, x);
                    lemma_apply_rule_count(second, rule, x);
                }
                assert(second_next.pool.to_multiset().add(dropped)
                    =~= first_next.pool.to_multiset());
            },
            MatchRule::Default(_) => {},
        }
    }
}

/// Grouping the entries of the groups again, in whatever order they stand,
/// gives groups that hold, place by place, the same entries equally often.
pub proof fn lemma_regrouping_counts(
    entries: Seq<Seq<char>>,
    again: Seq<Seq<char>>,
    rules: Seq<MatchRule>,
)
    requires
        again.to_multiset() == grouped(entries, rules).flatten().to_multiset(),
    ensures
        same_groups(grouped(entries, rules), grouped(again, rules)),
{
    let end = grouping_after(entries, rules);
    let dropped = if end.catch_all is Some {
        Multiset::<Seq<char>>::empty()
    } else {
        end.pool.to_multiset()
    };
    lemma_grouping_conserves(entries, rules);
    lemma_grouped_conserves(entries, rules);
    assert(again.to_multiset().add(dropped) =~= entries.to_multiset());
    lemma_grouping_follows(entries, again, rules, dropped, rules.len() as int);
    assert(rules.take(rules.len() as int) =~= rules);
    match end.catch_all {
        Some(place) => {
            let first = grouped(entries, rules);
            let second = grouped(again, rules);
            assert forall|j: int| 0 <= j < first.len() implies (#[trigger] first[j]).to_multiset()
                == second[j].to_multiset() by {}
        },
        None => {},
    }
}

/// With the text as a key, no two different entries are left untold apart,
/// and the order of a sorted group is the only one there is.
pub proof fn lemma_sorted_by_content(keys: SortKeys, first: Seq<Seq<char>>, second: Seq<Seq<char>>)
    requires
        keys.alphabetical != Direction::Inactive,
        first.to_multiset() == second.to_multiset(),
    ensures
        sorted_entries(keys, first) == sorted_entries(keys, second),
{
    let not_later = |a: Seq<char>, b: Seq<char>| !precedes(keys, b, a);
    assert(total_ordering(not_later)) by {
        assert forall|a: Seq<char>, b: Seq<char>| #[trigger]
            not_later(a, b) && #[trigger] not_later(b, a) implies a == b by {
            lemma_lex_total(a, b);
        }
        assert forall|a: Seq<char>, b: Seq<char>, c: Seq<char>| #[trigger]
            not_later(a, b) && #[trigger] not_later(b, c) implies not_later(a, c) by {
            lemma_not_later_transitive(keys, c, b, a);
        }
        assert forall|a: Seq<char>, b: Seq<char>| #[trigger]
            not_later(a, b) || #[trigger] not_later(b, a) by {
            lemma_precedes_asymmetric(keys, a, b);
        }
    }
    lemma_sorted_entries(keys, first);
    lemma_sorted_entries(keys, second);
    let x = sorted_entries(keys, first);
    let y = sorted_entries(keys, second);
    lemma_sorted_unique(x, y, not_later);
}

/// With the text as a key, groups that hold the same entries sort alike.
pub proof fn lemma_sorted_groups_by_content(
    keys: SortKeys,
    first: Seq<Seq<Seq<char>>>,
    second: Seq<Seq<Seq<char>>>,
)
    requires
        keys.alphabetical != Direction::Inactive,
        same_groups(first, second),
    ensures
        sorted_groups(keys, first) == sorted_groups(keys, second),
{
    assert forall|j: int| 0 <= j < first.len() implies sorted_entries(keys, #[trigger] first[j])
        == sorted_entries(keys, second[j]) by {
        lemma_sorted_by_content(keys, first[j], second[j]);
    }
}

} // verus!
