//! The entry filter: drops the entries that do not exist, that are not
//! absolute, and that repeat an earlier entry, in this order and each only
//! where the rule document asks for it. The survivors keep their order.

use crate::entry::{entry_is_absolute, is_absolute_entry};
use crate::representation::{enforced, Rules};
use crate::seqs::{lemma_filter_all, lemma_filter_members};
use vstd::prelude::*;

verus! {

/// The test "occurs in `existing`".
pub open spec fn known_in(existing: Seq<Seq<char>>) -> spec_fn(Seq<char>) -> bool {
    |entry: Seq<char>| existing.contains(entry)
}

/// The test "is absolute".
pub open spec fn absolute() -> spec_fn(Seq<char>) -> bool {
    |entry: Seq<char>| is_absolute_entry(entry)
}

/// `entries` without every entry that repeats an earlier one.
pub open spec fn first_occurrences(entries: Seq<Seq<char>>) -> Seq<Seq<char>>
    decreases entries.len(),
{
    if entries.len() == 0 {
        entries
    } else {
        let before = first_occurrences(entries.drop_last());
        if entries.drop_last().contains(entries.last()) {
            before
        } else {
            before.push(entries.last())
        }
    }
}

/// What the filter leaves of `entries`, where `existing` lists the entries
/// that name something in the file system.
pub open spec fn filtered_entries(
    entries: Seq<Seq<char>>,
    existing: Seq<Seq<char>>,
    rules: Rules,
) -> Seq<Seq<char>> {
    let found = if enforced(rules.must_exist) {
        entries.filter(known_in(existing))
    } else {
        entries
    };
    let rooted = if enforced(rules.must_be_absolute) {
        found.filter(absolute())
    } else {
        found
    };
    if enforced(rules.must_be_unique) {
        first_occurrences(rooted)
    } else {
        rooted
    }
}

/// `entry` meets what `rules` asks of a single entry: to exist and to be
/// absolute, each where it is enforced.
pub open spec fn passes(entry: Seq<char>, existing: Seq<Seq<char>>, rules: Rules) -> bool {
    &&& enforced(rules.must_exist) ==> existing.contains(entry)
    &&& enforced(rules.must_be_absolute) ==> is_absolute_entry(entry)
}

/// Without its repeats a sequence is duplicate-free and still holds every
/// entry that it held.
pub proof fn lemma_first_occurrences(entries: Seq<Seq<char>>)
    ensures
        first_occurrences(entries).no_duplicates(),
        forall|x: Seq<char>| #[trigger] first_occurrences(entries).contains(x) <==> entries.contains(x),
    decreases entries.len(),
{
    let kept = first_occurrences(entries);
    if entries.len() > 0 {
        let front = entries.drop_last();
        let before = first_occurrences(front);
        lemma_first_occurrences(front);
        assert forall|x: Seq<char>| #[trigger] kept.contains(x) <==> entries.contains(x) by {
            if kept.contains(x) {
                let i = choose|i: int| 0 <= i < kept.len() && kept[i] == x;
                if i < before.len() {
                    assert(before.contains(x));
                }
            }
            if entries.contains(x) {
                let j = choose|j: int| 0 <= j < entries.len() && entries[j] == x;
                if j < front.len() {
                    assert(front[j] == x);
                } else if !front.contains(x) {
                    assert(kept[kept.len() - 1] == x);
                }
                if front.contains(x) {
                    assert(before.contains(x));
                    let i = choose|i: int| 0 <= i < before.len() && before[i] == x;
                    assert(kept[i] == x);
                }
            }
        }
        if !front.contains(entries.last()) {
            assert forall|i: int, j: int|
                0 <= i < kept.len() && 0 <= j < kept.len() && i != j implies kept[i]
                != kept[j] by {
                if i >= before.len() || j >= before.len() {
                    let inner = if i < j {
                        i
                    } else {
                        j
                    };
                    assert(before.contains(kept[inner]));
                }
            }
        }
    }
}

/// A duplicate-free sequence has no repeats to lose.
pub proof fn lemma_first_occurrences_fixed(entries: Seq<Seq<char>>)
    requires
        entries.no_duplicates(),
    ensures
        first_occurrences(entries) == entries,
    decreases entries.len(),
{
    if entries.len() > 0 {
        let front = entries.drop_last();
        lemma_first_occurrences_fixed(front);
    }
}

/// What the filter leaves was there before and meets the rules; and where
/// uniqueness is enforced nothing is left twice.
pub proof fn lemma_filtered_entries(
    entries: Seq<Seq<char>>,
    existing: Seq<Seq<char>>,
    rules: Rules,
)
    ensures
        forall|x: Seq<char>| #[trigger]
            filtered_entries(entries, existing, rules).contains(x) ==> entries.contains(x)
                && passes(x, existing, rules),
        enforced(rules.must_be_unique) ==> filtered_entries(
            entries,
            existing,
            rules,
        ).no_duplicates(),
{
    let found = if enforced(rules.must_exist) {
        entries.filter(known_in(existing))
    } else {
        entries
    };
    let rooted = if enforced(rules.must_be_absolute) {
        found.filter(absolute())
    } else {
        found
    };
    lemma_filter_members(entries, known_in(existing));
    lemma_filter_members(found, absolute());
    lemma_first_occurrences(rooted);
}

/// The filter changes nothing in entries that meet the rules already.
pub proof fn lemma_filtered_entries_fixed(
    entries: Seq<Seq<char>>,
    existing: Seq<Seq<char>>,
    rules: Rules,
)
    requires
        forall|i: int| 0 <= i < entries.len() ==> passes(#[trigger] entries[i], existing, rules),
        enforced(rules.must_be_unique) ==> entries.no_duplicates(),
    ensures
        filtered_entries(entries, existing, rules) == entries,
{
    if enforced(rules.must_exist) {
        lemma_filter_all(entries, known_in(existing));
    }
    if enforced(rules.must_be_absolute) {
        lemma_filter_all(entries, absolute());
    }
    if enforced(rules.must_be_unique) {
        lemma_first_occurrences_fixed(entries);
    }
}

/// A prefix one entry longer filters to the filtered prefix, with the new
/// entry behind it if it passes.
pub proof fn lemma_filter_next(entries: Seq<Seq<char>>, test: spec_fn(Seq<char>) -> bool, n: int)
    requires
        0 <= n < entries.len(),
    ensures
        entries.take(n + 1).filter(test) == if test(entries[n]) {
            entries.take(n).filter(test).push(entries[n])
        } else {
            entries.take(n).filter(test)
        },
{
    reveal(Seq::filter);
    assert(entries.take(n + 1).drop_last() =~= entries.take(n));
}

/// Whether `entry` occurs among the first `end` of `entries`.
fn occurs_before(entries: &Vec<String>, end: usize, entry: &String) -> (found: bool)
    requires
        end <= entries.len(),
    ensures
        found == entries.deep_view().take(end as int).contains(entry@),
{
    let mut at: usize = 0;
    while at < end
        invariant
            at <= end <= entries.len(),
            forall|j: int| 0 <= j < at ==> entries.deep_view()[j] != entry@,
        decreases end - at,
    {
        if entries[at] == *entry {
            assert(entries.deep_view().take(end as int)[at as int] == entry@);
            return true;
        }
        at += 1;
    }
    false
}

/// Whether `entry` occurs in `entries`.
pub fn occurs_in(entries: &Vec<String>, entry: &String) -> (found: bool)
    ensures
        found == entries.deep_view().contains(entry@),
{
    assert(entries.deep_view().take(entries.len() as int) =~= entries.deep_view());
    occurs_before(entries, entries.len(), entry)
}

/// The entries that occur in `existing`, in order.
pub fn keep_existing(entries: &Vec<String>, existing: &Vec<String>) -> (kept: Vec<String>)
    ensures
        kept.deep_view() == entries.deep_view().filter(known_in(existing.deep_view())),
{
    let mut kept: Vec<String> = Vec::new();
    let mut next: usize = 0;
    let ghost test = known_in(existing.deep_view());
    while next < entries.len()
        invariant
            next <= entries.len(),
            test == known_in(existing.deep_view()),
            kept.deep_view() == entries.deep_view().take(next as int).filter(test),
        decreases entries.len() - next,
    {
        proof {
            lemma_filter_next(entries.deep_view(), test, next as int);
        }
        if occurs_in(existing, &entries[next]) {
            kept.push(entries[next].clone());
        }
        next += 1;
    }
    assert(entries.deep_view().take(next as int) =~= entries.deep_view());
    kept
}

/// The absolute entries, in order.
pub fn keep_absolute(entries: &Vec<String>) -> (kept: Vec<String>)
    ensures
        kept.deep_view() == entries.deep_view().filter(absolute()),
{
    let mut kept: Vec<String> = Vec::new();
    let mut next: usize = 0;
    while next < entries.len()
        invariant
            next <= entries.len(),
            kept.deep_view() == entries.deep_view().take(next as int).filter(absolute()),
        decreases entries.len() - next,
    {
        proof {
            lemma_filter_next(entries.deep_view(), absolute(), next as int);
        }
        if entry_is_absolute(entries[next].as_str()) {
            kept.push(entries[next].clone());
        }
        next += 1;
    }
    assert(entries.deep_view().take(next as int) =~= entries.deep_view());
    kept
}

/// The entries without later repeats, in order.
pub fn keep_first_occurrences(entries: &Vec<String>) -> (kept: Vec<String>)
    ensures
        kept.deep_view() == first_occurrences(entries.deep_view()),
{
    let mut kept: Vec<String> = Vec::new();
    let mut next: usize = 0;
    while next < entries.len()
        invariant
            next <= entries.len(),
            kept.deep_view() == first_occurrences(entries.deep_view().take(next as int)),
        decreases entries.len() - next,
    {
        proof {
            let prefix = entries.deep_view().take(next + 1);
            assert(prefix.drop_last() =~= entries.deep_view().take(next as int));
        }
        if !occurs_before(entries, next, &entries[next]) {
            kept.push(entries[next].clone());
        }
        next += 1;
    }
    assert(entries.deep_view().take(next as int) =~= entries.deep_view());
    kept
}

/// Applies the filters that `rules` enforces: existence, then absoluteness,
/// then uniqueness.
pub fn filter_entries(entries: Vec<String>, existing: &Vec<String>, rules: &Rules) -> (kept: Vec<
    String,
>)
    ensures
        kept.deep_view() == filtered_entries(entries.deep_view(), existing.deep_view(), *rules),
{
    let mut kept = entries;
    if let Some(true) = rules.must_exist {
        kept = keep_existing(&kept, existing);
    }
    if let Some(true) = rules.must_be_absolute {
        kept = keep_absolute(&kept);
    }
    if let Some(true) = rules.must_be_unique {
        kept = keep_first_occurrences(&kept);
    }
    kept
}

} // verus!
