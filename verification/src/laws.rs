//! What holds of the whole operation, whatever the path list and the rule
//! document.

use crate::classes::{exact_texts_single, lemma_distinct_entries_single, lemma_regrouping};
use crate::classifier::{grouped, lemma_grouped_conserves};
use crate::counts::{lemma_regrouping_counts, lemma_sorted_groups_by_content};
use crate::entry::PATH_LIST_DELIMITER;
use crate::filter::{
    filtered_entries, lemma_filtered_entries, lemma_filtered_entries_fixed, passes,
};
use crate::list::{delimiter_free, join_with, lemma_split_joined, lemma_split_on, split_on};
use crate::path_sort::{entries_of, sorted_list, sorted_path};
use crate::representation::{enforced, Direction, MatchRule, SortFile};
use crate::seqs::{lemma_part_of, lemma_part_of_distinct};
use crate::sorter::{lemma_sorted_groups_conserve, lemma_sorted_groups_fixed, sorted_groups};
use vstd::prelude::*;

verus! {

/// No entry made up, none doubled: the sorted path holds no entry more often
/// than the filter left it. With a catch-all rule in the match list none is
/// lost either: the sorted path is a rearrangement of what the filter left.
pub proof fn lemma_entries_conserved(
    entries: Seq<Seq<char>>,
    existing: Seq<Seq<char>>,
    document: SortFile,
)
    requires
        document.match_list() is Some,
    ensures
        sorted_path(entries, existing, document)->0.flatten().to_multiset().subset_of(
            filtered_entries(entries, existing, document.rules).to_multiset(),
        ),
        document.match_list()->0.contains(MatchRule::Default(true)) ==> sorted_path(
            entries,
            existing,
            document,
        )->0.flatten().to_multiset() == filtered_entries(
            entries,
            existing,
            document.rules,
        ).to_multiset(),
{
    let rules = document.match_list()->0;
    let kept = filtered_entries(entries, existing, document.rules);
    lemma_grouped_conserves(kept, rules);
    lemma_sorted_groups_conserve(document.keys(), grouped(kept, rules));
}

/// With no filter enforced and a single catch-all rule as the whole match
/// list, the sorted path is a rearrangement of the input: no entry is made
/// up and none is lost.
pub proof fn lemma_conservation(
    entries: Seq<Seq<char>>,
    existing: Seq<Seq<char>>,
    document: SortFile,
)
    requires
        !enforced(document.rules.must_exist),
        !enforced(document.rules.must_be_unique),
        !enforced(document.rules.must_be_absolute),
        document.match_list() == Some(seq![MatchRule::Default(true)]),
    ensures
        sorted_path(entries, existing, document) matches Some(groups)
            && groups.flatten().to_multiset() == entries.to_multiset(),
{
    lemma_entries_conserved(entries, existing, document);
}

/// What the repeated sort rests on: the text is a sort key, or no text that
/// an `Exact` rule names is left twice by the filter. The second holds
/// wherever uniqueness is enforced and wherever the entries are all
/// different. Without either, an `Exact` rule may take one of two equal
/// entries out of a group whose order nothing restores.
pub open spec fn settles(
    path_var: Option<Seq<char>>,
    existing: Seq<Seq<char>>,
    document: SortFile,
) -> bool {
    document.match_list() matches Some(rules) ==> document.keys().alphabetical
        != Direction::Inactive || exact_texts_single(
        filtered_entries(entries_of(path_var), existing, document.rules),
        rules,
    )
}

/// Where uniqueness is enforced, every path list settles.
pub proof fn lemma_unique_entries_settle(
    path_var: Option<Seq<char>>,
    existing: Seq<Seq<char>>,
    document: SortFile,
)
    requires
        enforced(document.rules.must_be_unique),
    ensures
        settles(path_var, existing, document),
{
    if let Some(rules) = document.match_list() {
        lemma_filtered_entries(entries_of(path_var), existing, document.rules);
        lemma_distinct_entries_single(
            filtered_entries(entries_of(path_var), existing, document.rules),
            rules,
        );
    }
}

/// Sorting twice is sorting once: the sorted path list, sorted again under
/// the same document and with the same entries existing, is itself.
pub proof fn lemma_sorting_is_idempotent(
    path_var: Option<Seq<char>>,
    existing: Seq<Seq<char>>,
    document: SortFile,
)
    requires
        settles(path_var, existing, document),
    ensures
        sorted_list(path_var, existing, document) matches Some(once) ==> sorted_list(
            Some(once),
            existing,
            document,
        ) == Some(once),
{
    if let Some(rules) = document.match_list() {
        let keys = document.keys();
        let entries = entries_of(path_var);
        let kept = filtered_entries(entries, existing, document.rules);
        let sorted = sorted_groups(keys, grouped(kept, rules));
        let flat = sorted.flatten();
        let once = join_with(flat, PATH_LIST_DELIMITER);
        let again = split_on(once, PATH_LIST_DELIMITER);

        lemma_filtered_entries(entries, existing, document.rules);
        lemma_grouped_conserves(kept, rules);
        lemma_sorted_groups_conserve(keys, grouped(kept, rules));
        assert(sorted_groups(keys, grouped(flat, rules)) == sorted) by {
            if keys.alphabetical != Direction::Inactive {
                lemma_regrouping_counts(kept, flat, rules);
                lemma_sorted_groups_by_content(keys, grouped(kept, rules), grouped(flat, rules));
            } else {
                lemma_regrouping(keys, kept, rules);
                lemma_sorted_groups_fixed(keys, grouped(kept, rules));
            }
        }
        lemma_part_of(flat, kept);
        if enforced(document.rules.must_be_unique) {
            lemma_part_of_distinct(flat, kept);
        }
        if flat.len() >= 1 {
            assert(delimiter_free(flat, PATH_LIST_DELIMITER) && forall|i: int|
                0 <= i < flat.len() ==> passes(#[trigger] flat[i], existing, document.rules)) by {
                assert forall|i: int| 0 <= i < flat.len() implies !(#[trigger] flat[i]).contains(
                    PATH_LIST_DELIMITER,
                ) && passes(flat[i], existing, document.rules) by {
                    assert(flat.contains(flat[i]));
                    match path_var {
                        Some(list) => {
                            lemma_split_on(list, PATH_LIST_DELIMITER);
                        },
                        None => {},
                    }
                }
            }
            lemma_split_joined(flat, PATH_LIST_DELIMITER);
            lemma_filtered_entries_fixed(flat, existing, document.rules);
        } else {
            let kept_again = filtered_entries(again, existing, document.rules);
            let flat_again = sorted_groups(keys, grouped(kept_again, rules)).flatten();
            lemma_filtered_entries(again, existing, document.rules);
            lemma_grouped_conserves(kept_again, rules);
            lemma_sorted_groups_conserve(keys, grouped(kept_again, rules));
            lemma_part_of(flat_again, kept_again);
            lemma_part_of_distinct(flat_again, kept_again);
            assert forall|i: int| 0 <= i < flat_again.len() implies #[trigger] flat_again[i]
                == Seq::<char>::empty() by {
                assert(flat_again.contains(flat_again[i]));
            }
            if flat_again.len() >= 2 {
                assert(flat_again[0] == flat_again[1]);
            }
        }
    }
}

} // verus!
