//! Grouping seen from the single entry: which rule claims it. Where no text
//! of an `Exact` rule occurs twice, a group is the entries that its rule is
//! the first to claim, and the pool is the entries that no rule claims.

use crate::classifier::{
    grouped, grouping_after, holding, lacking, lemma_grouped_conserves, lemma_grouping_conserves,
    lemma_nothing_taken, Grouping,
};
use crate::representation::{MatchRule, SortKeys};
use crate::seqs::{
    all_pass, at_most_once, lemma_filter_agree, lemma_filter_all, lemma_filter_count,
    lemma_filter_members, lemma_filter_none, lemma_filter_single, lemma_filter_twice,
    lemma_flatten_update, lemma_remove_value_single, none_pass,
};
use crate::sorter::{
    lemma_sorted_groups_conserve, lemma_sorted_groups_push, lemma_sorted_members,
    sorted_entries, sorted_groups,
};
use crate::text::is_substring;
use vstd::prelude::*;

verus! {

/// `rule` would take `entry` if it met it in the pool.
pub open spec fn claims(rule: MatchRule, entry: Seq<char>) -> bool {
    match rule {
        MatchRule::Exact(text) => entry == text,
        MatchRule::Contains(text) => is_substring(text, entry),
        MatchRule::Default(_) => false,
    }
}

/// The index of the first rule that claims `entry`, or the number of rules
/// where none does.
pub open spec fn first_claim(rules: Seq<MatchRule>, entry: Seq<char>) -> int
    decreases rules.len(),
{
    if rules.len() == 0 {
        0
    } else {
        let before = first_claim(rules.drop_last(), entry);
        if before < rules.len() - 1 {
            before
        } else if claims(rules.last(), entry) {
            rules.len() - 1
        } else {
            rules.len() as int
        }
    }
}

/// The test "no rule of `rules` claims the entry".
pub open spec fn unclaimed(rules: Seq<MatchRule>) -> spec_fn(Seq<char>) -> bool {
    |entry: Seq<char>| first_claim(rules, entry) == rules.len()
}

/// The test "the last rule of `rules` is the first to claim the entry".
pub open spec fn claimed_last(rules: Seq<MatchRule>) -> spec_fn(Seq<char>) -> bool {
    |entry: Seq<char>| first_claim(rules, entry) == rules.len() - 1
}

/// The groups of `entries` by first claim: for each rule in order, the entries
/// that it is the first to claim, where there are any; and an empty group in
/// the place of each catch-all rule.
pub open spec fn class_groups(entries: Seq<Seq<char>>, rules: Seq<MatchRule>) -> Seq<
    Seq<Seq<char>>,
>
    decreases rules.len(),
{
    if rules.len() == 0 {
        Seq::empty()
    } else {
        let before = class_groups(entries, rules.drop_last());
        match rules.last() {
            MatchRule::Default(flag) => if flag {
                before.push(Seq::empty())
            } else {
                before
            },
            _ => if entries.filter(claimed_last(rules)).len() > 0 {
                before.push(entries.filter(claimed_last(rules)))
            } else {
                before
            },
        }
    }
}

/// The place of the first catch-all rule among the groups by first claim.
pub open spec fn class_catch_all(entries: Seq<Seq<char>>, rules: Seq<MatchRule>) -> Option<int>
    decreases rules.len(),
{
    if rules.len() == 0 {
        None
    } else {
        match class_catch_all(entries, rules.drop_last()) {
            Some(place) => Some(place),
            None => if rules.last() == MatchRule::Default(true) {
                Some(class_groups(entries, rules.drop_last()).len() as int)
            } else {
                None
            },
        }
    }
}

/// Among the first `count` rules the first claim is the same, or `count`
/// where it lies behind them.
pub proof fn lemma_first_claim_prefix(rules: Seq<MatchRule>, count: int, entry: Seq<char>)
    requires
        0 <= count <= rules.len(),
    ensures
        first_claim(rules.take(count), entry) == if first_claim(rules, entry) < count {
            first_claim(rules, entry)
        } else {
            count
        },
    decreases rules.len(),
{
    if count == rules.len() {
        assert(rules.take(count) =~= rules);
    } else {
        lemma_first_claim_prefix(rules.drop_last(), count, entry);
        assert(rules.drop_last().take(count) =~= rules.take(count));
    }
}

/// No text that an `Exact` rule of `rules` names occurs twice in `entries`.
pub open spec fn exact_texts_single(entries: Seq<Seq<char>>, rules: Seq<MatchRule>) -> bool {
    forall|k: int|
        0 <= k < rules.len() ==> (#[trigger] rules[k] matches MatchRule::Exact(text)
            ==> at_most_once(entries, text))
}

/// Entries that are all different hold no text twice.
pub proof fn lemma_distinct_entries_single(entries: Seq<Seq<char>>, rules: Seq<MatchRule>)
    requires
        entries.no_duplicates(),
    ensures
        exact_texts_single(entries, rules),
{
    entries.lemma_multiset_has_no_duplicates();
}

/// Where no text of an `Exact` rule occurs twice, grouping is grouping by
/// first claim.
pub proof fn lemma_grouping_by_class(entries: Seq<Seq<char>>, rules: Seq<MatchRule>)
    requires
        exact_texts_single(entries, rules),
    ensures
        grouping_after(entries, rules) == (Grouping {
            pool: entries.filter(unclaimed(rules)),
            groups: class_groups(entries, rules),
            catch_all: class_catch_all(entries, rules),
        }),
    decreases rules.len(),
{
    if rules.len() == 0 {
        lemma_filter_all(entries, unclaimed(rules));
    } else {
        let front = rules.drop_last();
        let before = grouping_after(entries, front);
        lemma_grouping_by_class(entries, front);
        lemma_filter_members(entries, unclaimed(front));
        match rules.last() {
            MatchRule::Exact(text) => {
                lemma_filter_count(entries, unclaimed(front), text);
                if before.pool.contains(text) {
                    lemma_filter_single(entries, text, claimed_last(rules));
                    lemma_remove_value_single(before.pool, text, unclaimed(rules));
                    lemma_filter_twice(
                        entries,
                        unclaimed(front),
                        unclaimed(rules),
                        unclaimed(rules),
                    );
                } else {
                    lemma_filter_none(entries, claimed_last(rules));
                    lemma_filter_agree(entries, unclaimed(front), unclaimed(rules));
                }
            },
            MatchRule::Contains(text) => {
                lemma_filter_twice(entries, unclaimed(front), holding(text), claimed_last(rules));
                lemma_filter_twice(entries, unclaimed(front), lacking(text), unclaimed(rules));
                if before.pool.filter(holding(text)).len() == 0 {
                    lemma_nothing_taken(before.pool, text);
                }
            },
            MatchRule::Default(_) => {
                lemma_filter_agree(entries, unclaimed(front), unclaimed(rules));
            },
        }
    }
}

/// The entries of the groups by first claim, each group sorted, in one
/// sequence.
pub open spec fn sorted_classes(keys: SortKeys, entries: Seq<Seq<char>>, rules: Seq<MatchRule>) -> Seq<
    Seq<char>,
> {
    sorted_groups(keys, class_groups(entries, rules)).flatten()
}

/// A sorted group, filtered by a test that its entries all pass or all fail,
/// is the whole group or nothing.
proof fn lemma_sorted_one_class(
    keys: SortKeys,
    group: Seq<Seq<char>>,
    test: spec_fn(Seq<char>) -> bool,
)
    ensures
        all_pass(group, test) ==> sorted_entries(keys, group).filter(test) == sorted_entries(
            keys,
            group,
        ),
        none_pass(group, test) ==> sorted_entries(keys, group).filter(test) == Seq::<
            Seq<char>,
        >::empty(),
{
    let sorted = sorted_entries(keys, group);
    lemma_sorted_members(keys, group);
    if all_pass(group, test) {
        assert forall|i: int| 0 <= i < sorted.len() implies test(#[trigger] sorted[i]) by {
            assert(sorted.contains(sorted[i]));
        }
        lemma_filter_all(sorted, test);
    }
    if none_pass(group, test) {
        assert forall|i: int| 0 <= i < sorted.len() implies !test(#[trigger] sorted[i]) by {
            assert(sorted.contains(sorted[i]));
        }
        lemma_filter_none(sorted, test);
    }
}

/// How the sorted groups by first claim grow with one more rule: by the
/// sorted group of the entries that this rule is the first to claim.
proof fn lemma_sorted_classes_step(keys: SortKeys, entries: Seq<Seq<char>>, rules: Seq<MatchRule>)
    requires
        rules.len() > 0,
    ensures
        sorted_classes(keys, entries, rules) == sorted_classes(keys, entries, rules.drop_last())
            + sorted_entries(keys, entries.filter(claimed_last(rules))),
{
    let front = rules.drop_last();
    let before = class_groups(entries, front);
    let group = entries.filter(claimed_last(rules));
    if rules.last() == MatchRule::Default(true) {
        lemma_sorted_groups_push(keys, before, Seq::empty());
        sorted_groups(keys, before).lemma_flatten_push(Seq::empty());
    } else if !(rules.last() is Default) && group.len() > 0 {
        lemma_sorted_groups_push(keys, before, group);
        sorted_groups(keys, before).lemma_flatten_push(sorted_entries(keys, group));
    }
}

/// Every entry of the sorted groups by first claim is one of `entries` that
/// some rule claims.
proof fn lemma_sorted_classes_members(
    keys: SortKeys,
    entries: Seq<Seq<char>>,
    rules: Seq<MatchRule>,
)
    ensures
        forall|i: int|
            0 <= i < sorted_classes(keys, entries, rules).len() ==> entries.contains(
                #[trigger] sorted_classes(keys, entries, rules)[i],
            ) && first_claim(rules, sorted_classes(keys, entries, rules)[i]) < rules.len(),
    decreases rules.len(),
{
    let flat = sorted_classes(keys, entries, rules);
    if rules.len() > 0 {
        let front = rules.drop_last();
        let before = sorted_classes(keys, entries, front);
        let group = entries.filter(claimed_last(rules));
        lemma_sorted_classes_step(keys, entries, rules);
        lemma_sorted_classes_members(keys, entries, front);
        lemma_sorted_members(keys, group);
        lemma_filter_members(entries, claimed_last(rules));
        assert forall|i: int| 0 <= i < flat.len() implies entries.contains(#[trigger] flat[i])
            && first_claim(rules, flat[i]) < rules.len() by {
            if i >= before.len() {
                let sorted = sorted_entries(keys, group);
                assert(sorted.contains(flat[i]));
            }
        }
    }
}

/// Of the sorted groups by first claim, the entries that the rule at index
/// `count - 1` is the first to claim are the sorted group of that rule.
proof fn lemma_sorted_classes_filter(
    keys: SortKeys,
    entries: Seq<Seq<char>>,
    rules: Seq<MatchRule>,
    count: int,
)
    requires
        1 <= count <= rules.len(),
    ensures
        sorted_classes(keys, entries, rules).filter(claimed_last(rules.take(count)))
            == sorted_entries(keys, entries.filter(claimed_last(rules.take(count)))),
    decreases rules.len(),
{
    let test = claimed_last(rules.take(count));
    let front = rules.drop_last();
    let before = sorted_classes(keys, entries, front);
    let group = entries.filter(claimed_last(rules));
    lemma_sorted_classes_step(keys, entries, rules);
    if count == rules.len() {
        assert(rules.take(count) =~= rules);
        lemma_sorted_classes_members(keys, entries, front);
        lemma_filter_none(before, test);
        lemma_sorted_one_class(keys, group, test);
    } else {
        lemma_sorted_classes_filter(keys, entries, front, count);
        assert(front.take(count) =~= rules.take(count));
        assert(none_pass(group, test)) by {
            assert forall|i: int| 0 <= i < group.len() implies !test(#[trigger] group[i]) by {
                lemma_first_claim_prefix(rules, count, group[i]);
            }
        }
        lemma_sorted_one_class(keys, group, test);
    }
}

/// Where a second sequence holds, for every rule, the sorted group of the
/// entries that the rule is the first to claim among `entries`, its groups
/// by first claim are the sorted groups of `entries`.
proof fn lemma_class_groups_of_sorted(
    keys: SortKeys,
    entries: Seq<Seq<char>>,
    again: Seq<Seq<char>>,
    rules: Seq<MatchRule>,
    count: int,
)
    requires
        0 <= count <= rules.len(),
        forall|m: int|
            1 <= m <= rules.len() ==> again.filter(#[trigger] claimed_last(rules.take(m)))
                == sorted_entries(keys, entries.filter(claimed_last(rules.take(m)))),
    ensures
        class_groups(again, rules.take(count)) == sorted_groups(
            keys,
            class_groups(entries, rules.take(count)),
        ),
        class_catch_all(again, rules.take(count)) == class_catch_all(entries, rules.take(count)),
    decreases count,
{
    let prefix = rules.take(count);
    if count > 0 {
        lemma_class_groups_of_sorted(keys, entries, again, rules, count - 1);
        assert(prefix.drop_last() =~= rules.take(count - 1));
    }
}

/// Where no text of an `Exact` rule occurs twice, grouping the sorted groups,
/// taken as one sequence, gives the same sorted groups again.
pub proof fn lemma_regrouping(keys: SortKeys, entries: Seq<Seq<char>>, rules: Seq<MatchRule>)
    requires
        exact_texts_single(entries, rules),
    ensures
        grouped(sorted_groups(keys, grouped(entries, rules)).flatten(), rules) == sorted_groups(
            keys,
            grouped(entries, rules),
        ),
{
    let end = grouping_after(entries, rules);
    let sorted = sorted_groups(keys, grouped(entries, rules));
    let again = sorted.flatten();
    let by_class = sorted_groups(keys, end.groups);
    let rest = unclaimed(rules);

    lemma_grouping_by_class(entries, rules);
    lemma_grouping_conserves(entries, rules);
    lemma_grouped_conserves(entries, rules);
    lemma_sorted_groups_conserve(keys, grouped(entries, rules));
    lemma_sorted_classes_members(keys, entries, rules);
    lemma_sorted_one_class(keys, end.pool, rest);
    assert(none_pass(by_class.flatten(), rest)) by {
        assert forall|i: int| 0 <= i < by_class.flatten().len() implies !rest(
            #[trigger] by_class.flatten()[i],
        ) by {
            assert(first_claim(rules, sorted_classes(keys, entries, rules)[i]) < rules.len());
        }
    }
    lemma_filter_none(by_class.flatten(), rest);

    assert forall|m: int| 1 <= m <= rules.len() implies again.filter(
        #[trigger] claimed_last(rules.take(m)),
    ) == sorted_entries(keys, entries.filter(claimed_last(rules.take(m)))) by {
        let test = claimed_last(rules.take(m));
        lemma_sorted_classes_filter(keys, entries, rules, m);
        match end.catch_all {
            Some(place) => {
                let held = sorted_entries(keys, end.pool);
                assert(sorted =~= by_class.update(place, held));
                lemma_flatten_update(by_class, place, held);
                assert(end.groups[place] =~= Seq::empty());
                assert(none_pass(end.pool, test)) by {
                    assert forall|i: int| 0 <= i < end.pool.len() implies !test(
                        #[trigger] end.pool[i],
                    ) by {
                        lemma_first_claim_prefix(rules, m, end.pool[i]);
                    }
                }
                lemma_sorted_one_class(keys, end.pool, test);
            },
            None => {},
        }
    }
    lemma_class_groups_of_sorted(keys, entries, again, rules, rules.len() as int);
    assert(rules.take(rules.len() as int) =~= rules);
    lemma_grouping_by_class(again, rules);
    match end.catch_all {
        Some(place) => {
            let head = by_class.take(place).flatten();
            let tail = by_class.skip(place + 1).flatten();
            let held = sorted_entries(keys, end.pool);
            assert(sorted =~= by_class.update(place, held));
            lemma_flatten_update(by_class, place, held);
            Seq::filter_distributes_over_add(head, tail, rest);
        },
        None => {},
    }
}

} // verus!
