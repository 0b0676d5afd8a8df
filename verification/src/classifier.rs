//! The bucket classifier: walks the match list once and moves entries out of
//! a pool of unclaimed entries into ordered groups.

use crate::filter::lemma_filter_next;
use crate::representation::MatchRule;
use crate::seqs::{lemma_filter_split, lemma_flatten_update};
use crate::text::{contains_substring, is_substring};
use vstd::multiset::Multiset;
use vstd::prelude::*;
use vstd::seq_lib::{lemma_multiset_commutative, to_multiset_remove};

verus! {

/// The test "contains `text`".
pub open spec fn holding(text: Seq<char>) -> spec_fn(Seq<char>) -> bool {
    |entry: Seq<char>| is_substring(text, entry)
}

/// The test "does not contain `text`".
pub open spec fn lacking(text: Seq<char>) -> spec_fn(Seq<char>) -> bool {
    |entry: Seq<char>| !is_substring(text, entry)
}

/// The classifier between two rules.
pub struct Grouping {
    /// The entries that no rule has claimed yet, in the order in which they
    /// came.
    pub pool: Seq<Seq<char>>,
    /// The groups emitted so far, in rule order. The place of a catch-all
    /// rule is held by an empty group.
    pub groups: Seq<Seq<Seq<char>>>,
    /// The index in `groups` of the first catch-all rule, once one was met.
    pub catch_all: Option<int>,
}

/// One rule applied to the classifier's state.
///
/// - `Exact(text)` moves the first pool entry equal to `text` into a group of
///   its own; without such an entry it emits nothing.
/// - `Contains(text)` moves every pool entry that contains `text` into one
///   group, in pool order; without such an entry it emits nothing.
/// - `Default(true)` emits an empty group, and the first one is remembered as
///   the catch-all. `Default(false)` does nothing.
pub open spec fn apply_rule(state: Grouping, rule: MatchRule) -> Grouping {
    match rule {
        MatchRule::Exact(text) => if state.pool.contains(text) {
            Grouping {
                pool: state.pool.remove_value(text),
                groups: state.groups.push(seq![text]),
                catch_all: state.catch_all,
            }
        } else {
            state
        },
        MatchRule::Contains(text) => if state.pool.filter(holding(text)).len() > 0 {
            Grouping {
                pool: state.pool.filter(lacking(text)),
                groups: state.groups.push(state.pool.filter(holding(text))),
                catch_all: state.catch_all,
            }
        } else {
            state
        },
        MatchRule::Default(flag) => if flag {
            Grouping {
                pool: state.pool,
                groups: state.groups.push(Seq::empty()),
                catch_all: if state.catch_all is None {
                    Some(state.groups.len() as int)
                } else {
                    state.catch_all
                },
            }
        } else {
            state
        },
    }
}

/// The classifier's state after the rules of `rules`, applied in order to a
/// pool that starts as `entries`.
pub open spec fn grouping_after(entries: Seq<Seq<char>>, rules: Seq<MatchRule>) -> Grouping
    decreases rules.len(),
{
    if rules.len() == 0 {
        Grouping { pool: entries, groups: Seq::empty(), catch_all: None }
    } else {
        apply_rule(grouping_after(entries, rules.drop_last()), rules.last())
    }
}

/// The groups of `entries` under `rules`: those that the rules emitted, in
/// rule order, with what is left of the pool in the place of the first
/// catch-all rule. Without a catch-all rule what is left is dropped.
pub open spec fn grouped(entries: Seq<Seq<char>>, rules: Seq<MatchRule>) -> Seq<Seq<Seq<char>>> {
    let end = grouping_after(entries, rules);
    match end.catch_all {
        Some(place) => end.groups.update(place, end.pool),
        None => end.groups,
    }
}

/// The catch-all place, once there is one, is the place of an empty group.
pub open spec fn catch_all_is_held(state: Grouping) -> bool {
    state.catch_all matches Some(place) ==> 0 <= place < state.groups.len()
        && state.groups[place].len() == 0
}

/// The groups hold no entry and no copy of an entry that was not in
/// `entries`: pool and groups together hold each entry as often as `entries`.
pub proof fn lemma_grouping_conserves(entries: Seq<Seq<char>>, rules: Seq<MatchRule>)
    ensures
        grouping_after(entries, rules).groups.flatten().to_multiset().add(
            grouping_after(entries, rules).pool.to_multiset(),
        ) == entries.to_multiset(),
        catch_all_is_held(grouping_after(entries, rules)),
        grouping_after(entries, rules).catch_all is Some <==> rules.contains(
            MatchRule::Default(true),
        ),
    decreases rules.len(),
{
    let end = grouping_after(entries, rules);
    if rules.len() == 0 {
        assert forall|x: Seq<char>| end.groups.flatten().to_multiset().count(x) == 0 by {
            vstd::seq_lib::to_multiset_contains(end.groups.flatten(), x);
        }
    } else {
        let before = grouping_after(entries, rules.drop_last());
        lemma_grouping_conserves(entries, rules.drop_last());
        assert(rules.contains(MatchRule::Default(true)) <==> rules.drop_last().contains(
            MatchRule::Default(true),
        ) || rules.last() == MatchRule::Default(true)) by {
            if rules.contains(MatchRule::Default(true)) {
                let k = choose|k: int| 0 <= k < rules.len() && rules[k] == MatchRule::Default(true);
                if k < rules.len() - 1 {
                    assert(rules.drop_last()[k] == MatchRule::Default(true));
                }
            }
        }
        match rules.last() {
            MatchRule::Exact(text) => {
                if before.pool.contains(text) {
                    before.pool.index_of_first_ensures(text);
                    let at = before.pool.index_of_first(text)->0;
                    to_multiset_remove(before.pool, at);
                    before.groups.lemma_flatten_push(seq![text]);
                    lemma_multiset_commutative(before.groups.flatten(), seq![text]);
                    assert(seq![text].to_multiset() =~= Multiset::empty().insert(text)) by {
                        vstd::seq_lib::to_multiset_build(Seq::<Seq<char>>::empty(), text);
                        assert forall|x: Seq<char>|
                            Seq::<Seq<char>>::empty().to_multiset().count(x) == 0 by {
                            vstd::seq_lib::to_multiset_contains(Seq::<Seq<char>>::empty(), x);
                        }
                    }
                    vstd::seq_lib::to_multiset_contains(before.pool, text);
                }
            },
            MatchRule::Contains(text) => {
                let taken = before.pool.filter(holding(text));
                if taken.len() > 0 {
                    lemma_filter_split(before.pool, holding(text), lacking(text));
                    before.groups.lemma_flatten_push(taken);
                    lemma_multiset_commutative(before.groups.flatten(), taken);
                }
            },
            MatchRule::Default(flag) => {
                if flag {
                    before.groups.lemma_flatten_push(Seq::empty());
                }
            },
        }
    }
}

/// Grouping neither makes up entries nor copies them, and with a catch-all
/// rule in the match list it loses none.
pub proof fn lemma_grouped_conserves(entries: Seq<Seq<char>>, rules: Seq<MatchRule>)
    ensures
        grouped(entries, rules).flatten().to_multiset().subset_of(entries.to_multiset()),
        rules.contains(MatchRule::Default(true)) ==> grouped(
            entries,
            rules,
        ).flatten().to_multiset() == entries.to_multiset(),
{
    let end = grouping_after(entries, rules);
    lemma_grouping_conserves(entries, rules);
    match end.catch_all {
        Some(place) => {
            lemma_flatten_update(end.groups, place, end.pool);
            let head = end.groups.take(place).flatten();
            let tail = end.groups.skip(place + 1).flatten();
            lemma_multiset_commutative(head + end.pool, tail);
            lemma_multiset_commutative(head, end.pool);
            lemma_multiset_commutative(head, tail);
        },
        None => {},
    }
}

/// Where nothing contains `text`, taking out what contains it changes
/// nothing.
pub proof fn lemma_nothing_taken(pool: Seq<Seq<char>>, text: Seq<char>)
    requires
        pool.filter(holding(text)).len() == 0,
    ensures
        pool.filter(lacking(text)) == pool,
    decreases pool.len(),
{
    reveal(Seq::filter);
    if pool.len() > 0 {
        lemma_nothing_taken(pool.drop_last(), text);
    }
}

/// Where the first of several equal entries stands is where `remove_value`
/// takes one out.
pub proof fn lemma_remove_first(pool: Seq<Seq<char>>, text: Seq<char>, at: int)
    requires
        0 <= at < pool.len(),
        pool[at] == text,
        forall|j: int| 0 <= j < at ==> pool[j] != text,
    ensures
        pool.contains(text),
        pool.remove_value(text) == pool.remove(at),
{
    pool.index_of_first_ensures(text);
}

/// Takes the first entry equal to `text` out of `pool` and says whether there
/// was one.
pub fn take_exact(pool: &mut Vec<String>, text: &String) -> (taken: bool)
    ensures
        taken == old(pool).deep_view().contains(text@),
        final(pool).deep_view() == old(pool).deep_view().remove_value(text@),
{
    let mut at: usize = 0;
    while at < pool.len()
        invariant
            at <= pool.len(),
            *pool == *old(pool),
            forall|j: int| 0 <= j < at ==> pool.deep_view()[j] != text@,
        decreases pool.len() - at,
    {
        if pool[at] == *text {
            let ghost before = pool.deep_view();
            proof {
                lemma_remove_first(before, text@, at as int);
            }
            pool.remove(at);
            return true;
        }
        at += 1;
    }
    proof {
        pool.deep_view().index_of_first_ensures(text@);
    }
    false
}

/// Takes every entry that contains `text` out of `pool` and returns them in
/// pool order.
pub fn take_containing(pool: &mut Vec<String>, text: &str) -> (taken: Vec<String>)
    ensures
        taken.deep_view() == old(pool).deep_view().filter(holding(text@)),
        final(pool).deep_view() == old(pool).deep_view().filter(lacking(text@)),
{
    let mut taken: Vec<String> = Vec::new();
    let mut left: Vec<String> = Vec::new();
    let mut next: usize = 0;
    while next < pool.len()
        invariant
            next <= pool.len(),
            *pool == *old(pool),
            taken.deep_view() == pool.deep_view().take(next as int).filter(holding(text@)),
            left.deep_view() == pool.deep_view().take(next as int).filter(lacking(text@)),
        decreases pool.len() - next,
    {
        proof {
            lemma_filter_next(pool.deep_view(), holding(text@), next as int);
            lemma_filter_next(pool.deep_view(), lacking(text@), next as int);
        }
        if contains_substring(pool[next].as_str(), text) {
            taken.push(pool[next].clone());
        } else {
            left.push(pool[next].clone());
        }
        next += 1;
    }
    assert(pool.deep_view().take(next as int) =~= pool.deep_view());
    *pool = left;
    taken
}

} // verus!
