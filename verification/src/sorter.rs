//! The group sorter: orders the entries of one group by depth and by text,
//! each key ascending, descending or off, and keeps entries that the keys do
//! not tell apart in the order in which they came.

use crate::entry::{depth_of, path_depth};
use crate::representation::{Direction, SortKeys};
use crate::seqs::{lemma_filter_all, lemma_filter_members, lemma_filter_none, none_pass};
use crate::text::{
    lemma_lex_asymmetric, lemma_lex_total, lemma_lex_transitive, lex_less, lex_lt,
};
use vstd::prelude::*;
use vstd::seq_lib::{lemma_multiset_commutative, to_multiset_build, to_multiset_contains};

verus! {

/// Under `keys`, entry `a` must stand before entry `b`. Depth decides first
/// where it is active and differs; the text decides the rest where it is
/// active. With both keys off no entry precedes another.
pub open spec fn precedes(keys: SortKeys, a: Seq<char>, b: Seq<char>) -> bool {
    if keys.depth != Direction::Inactive && path_depth(a) != path_depth(b) {
        if keys.depth == Direction::Ascending {
            path_depth(a) < path_depth(b)
        } else {
            path_depth(b) < path_depth(a)
        }
    } else {
        match keys.alphabetical {
            Direction::Inactive => false,
            Direction::Ascending => lex_lt(a, b),
            Direction::Descending => lex_lt(b, a),
        }
    }
}

/// No entry of `entries` stands after one that it precedes.
pub open spec fn ordered(keys: SortKeys, entries: Seq<Seq<char>>) -> bool {
    forall|i: int, j: int|
        0 <= i < j < entries.len() ==> !precedes(keys, #[trigger] entries[j], #[trigger] entries[i])
}

/// `sorted` with `entry` put in behind the last entry that it does not
/// precede.
pub open spec fn insert_entry(keys: SortKeys, sorted: Seq<Seq<char>>, entry: Seq<char>) -> Seq<
    Seq<char>,
>
    decreases sorted.len(),
{
    if sorted.len() > 0 && precedes(keys, entry, sorted.last()) {
        insert_entry(keys, sorted.drop_last(), entry).push(sorted.last())
    } else {
        sorted.push(entry)
    }
}

/// The stable sort of `entries` under `keys`: each entry in turn is put
/// behind all those before it that it does not precede.
pub open spec fn sorted_entries(keys: SortKeys, entries: Seq<Seq<char>>) -> Seq<Seq<char>>
    decreases entries.len(),
{
    if entries.len() == 0 {
        entries
    } else {
        insert_entry(keys, sorted_entries(keys, entries.drop_last()), entries.last())
    }
}

/// Each group of `groups` sorted under `keys`.
pub open spec fn sorted_groups(keys: SortKeys, groups: Seq<Seq<Seq<char>>>) -> Seq<Seq<Seq<char>>> {
    Seq::new(groups.len(), |i: int| sorted_entries(keys, groups[i]))
}

/// Where `entry` is put in: the index `at` with `entry` preceding everything
/// from `at` on and not preceding the entry before `at`.
proof fn lemma_insert_entry_at(keys: SortKeys, sorted: Seq<Seq<char>>, entry: Seq<char>, at: int)
    requires
        0 <= at <= sorted.len(),
        forall|j: int| at <= j < sorted.len() ==> precedes(keys, entry, #[trigger] sorted[j]),
        at > 0 ==> !precedes(keys, entry, sorted[at - 1]),
    ensures
        insert_entry(keys, sorted, entry) == sorted.insert(at, entry),
    decreases sorted.len(),
{
    if at < sorted.len() {
        lemma_insert_entry_at(keys, sorted.drop_last(), entry, at);
    }
}

/// Of two entries at most one precedes the other.
pub proof fn lemma_precedes_asymmetric(keys: SortKeys, a: Seq<char>, b: Seq<char>)
    ensures
        !(precedes(keys, a, b) && precedes(keys, b, a)),
{
    lemma_lex_asymmetric(a, b);
}

/// Where `a` does not precede `b` and `b` does not precede `c`, `a` does not
/// precede `c`: "is not earlier than" is transitive.
pub proof fn lemma_not_later_transitive(keys: SortKeys, a: Seq<char>, b: Seq<char>, c: Seq<char>)
    requires
        !precedes(keys, a, b),
        !precedes(keys, b, c),
    ensures
        !precedes(keys, a, c),
{
    lemma_lex_total(a, b);
    lemma_lex_total(b, c);
    lemma_lex_asymmetric(a, c);
    if lex_lt(b, a) && lex_lt(c, b) {
        lemma_lex_transitive(c, b, a);
    }
    if lex_lt(a, b) && lex_lt(b, c) {
        lemma_lex_transitive(a, b, c);
    }
}

/// Putting an entry into an ordered group leaves the group ordered.
pub proof fn lemma_insert_entry_ordered(keys: SortKeys, sorted: Seq<Seq<char>>, entry: Seq<char>)
    requires
        ordered(keys, sorted),
    ensures
        ordered(keys, insert_entry(keys, sorted, entry)),
    decreases sorted.len(),
{
    let result = insert_entry(keys, sorted, entry);
    if sorted.len() > 0 && precedes(keys, entry, sorted.last()) {
        let front = insert_entry(keys, sorted.drop_last(), entry);
        lemma_insert_entry_ordered(keys, sorted.drop_last(), entry);
        lemma_insert_entry_members(keys, sorted.drop_last(), entry);
        assert forall|i: int, j: int| 0 <= i < j < result.len() implies !precedes(
            keys,
            #[trigger] result[j],
            #[trigger] result[i],
        ) by {
            if j >= front.len() && front[i] == entry {
                lemma_precedes_asymmetric(keys, entry, sorted.last());
            }
        }
    } else {
        assert forall|i: int, j: int| 0 <= i < j < result.len() implies !precedes(
            keys,
            #[trigger] result[j],
            #[trigger] result[i],
        ) by {
            if j >= sorted.len() && i < sorted.len() - 1 {
                lemma_not_later_transitive(keys, entry, sorted.last(), sorted[i]);
            }
        }
    }
}

/// Putting an entry in adds that entry and nothing else.
pub proof fn lemma_insert_entry_members(keys: SortKeys, sorted: Seq<Seq<char>>, entry: Seq<char>)
    ensures
        insert_entry(keys, sorted, entry).len() == sorted.len() + 1,
        insert_entry(keys, sorted, entry).to_multiset() == sorted.to_multiset().insert(entry),
        forall|i: int|
            0 <= i < sorted.len() + 1 ==> #[trigger] insert_entry(keys, sorted, entry)[i] == entry
                || sorted.contains(insert_entry(keys, sorted, entry)[i]),
    decreases sorted.len(),
{
    if sorted.len() > 0 && precedes(keys, entry, sorted.last()) {
        let front = insert_entry(keys, sorted.drop_last(), entry);
        lemma_insert_entry_members(keys, sorted.drop_last(), entry);
        to_multiset_build(front, sorted.last());
        to_multiset_build(sorted.drop_last(), sorted.last());
        assert(sorted.drop_last().push(sorted.last()) =~= sorted);
    } else {
        to_multiset_build(sorted, entry);
    }
}

/// The sorted group is ordered and holds the entries of the group, each as
/// often as the group does.
pub proof fn lemma_sorted_entries(keys: SortKeys, entries: Seq<Seq<char>>)
    ensures
        ordered(keys, sorted_entries(keys, entries)),
        sorted_entries(keys, entries).len() == entries.len(),
        sorted_entries(keys, entries).to_multiset() == entries.to_multiset(),
    decreases entries.len(),
{
    if entries.len() > 0 {
        let front = sorted_entries(keys, entries.drop_last());
        lemma_sorted_entries(keys, entries.drop_last());
        lemma_insert_entry_ordered(keys, front, entries.last());
        lemma_insert_entry_members(keys, front, entries.last());
        to_multiset_build(entries.drop_last(), entries.last());
        assert(entries.drop_last().push(entries.last()) =~= entries);
    }
}

/// The sorted group holds the entries of the group and no others.
pub proof fn lemma_sorted_members(keys: SortKeys, entries: Seq<Seq<char>>)
    ensures
        forall|x: Seq<char>| #[trigger]
            sorted_entries(keys, entries).contains(x) <==> entries.contains(x),
{
    lemma_sorted_entries(keys, entries);
    assert forall|x: Seq<char>| #[trigger]
        sorted_entries(keys, entries).contains(x) <==> entries.contains(x) by {
        to_multiset_contains(sorted_entries(keys, entries), x);
        to_multiset_contains(entries, x);
    }
}

/// The test "the keys do not tell the entry apart from `entry`": neither
/// precedes the other.
pub open spec fn tied_with(keys: SortKeys, entry: Seq<char>) -> spec_fn(Seq<char>) -> bool {
    |other: Seq<char>| !precedes(keys, other, entry) && !precedes(keys, entry, other)
}

/// Where `entry` lands in `sorted`: behind the last entry that it does not
/// precede.
pub open spec fn landing_place(keys: SortKeys, sorted: Seq<Seq<char>>, entry: Seq<char>) -> int
    decreases sorted.len(),
{
    if sorted.len() > 0 && precedes(keys, entry, sorted.last()) {
        landing_place(keys, sorted.drop_last(), entry)
    } else {
        sorted.len() as int
    }
}

/// Putting an entry in puts it at its landing place, before entries that it
/// precedes and nothing else.
pub proof fn lemma_landing_place(keys: SortKeys, sorted: Seq<Seq<char>>, entry: Seq<char>)
    ensures
        0 <= landing_place(keys, sorted, entry) <= sorted.len(),
        forall|j: int|
            landing_place(keys, sorted, entry) <= j < sorted.len() ==> precedes(
                keys,
                entry,
                #[trigger] sorted[j],
            ),
        insert_entry(keys, sorted, entry) == sorted.insert(
            landing_place(keys, sorted, entry),
            entry,
        ),
    decreases sorted.len(),
{
    let at = landing_place(keys, sorted, entry);
    if sorted.len() > 0 && precedes(keys, entry, sorted.last()) {
        lemma_landing_place(keys, sorted.drop_last(), entry);
        assert forall|j: int| at <= j < sorted.len() implies precedes(
            keys,
            entry,
            #[trigger] sorted[j],
        ) by {
            if j < sorted.len() - 1 {
                assert(sorted.drop_last()[j] == sorted[j]);
            }
        }
    }
}

/// Sorting is stable: the entries that the keys do not tell apart from a
/// given one stand in the sorted group in the order in which they came.
pub proof fn lemma_sorted_entries_stable(
    keys: SortKeys,
    entries: Seq<Seq<char>>,
    entry: Seq<char>,
)
    ensures
        sorted_entries(keys, entries).filter(tied_with(keys, entry)) == entries.filter(
            tied_with(keys, entry),
        ),
    decreases entries.len(),
{
    reveal(Seq::filter);
    let tied = tied_with(keys, entry);
    if entries.len() > 0 {
        let front = sorted_entries(keys, entries.drop_last());
        let last = entries.last();
        let at = landing_place(keys, front, last);
        lemma_sorted_entries_stable(keys, entries.drop_last(), entry);
        lemma_landing_place(keys, front, last);
        let head = front.take(at);
        let tail = front.skip(at);
        assert(front.insert(at, last) =~= head + seq![last] + tail);
        assert(front =~= head + tail);
        if tied(last) {
            assert(none_pass(tail, tied)) by {
                assert forall|j: int| 0 <= j < tail.len() implies !tied(#[trigger] tail[j]) by {
                    if tied(tail[j]) {
                        lemma_not_later_transitive(keys, last, entry, tail[j]);
                    }
                }
            }
            lemma_filter_none(tail, tied);
        } else {
            lemma_filter_none(seq![last], tied);
        }
    }
}

/// The same entries stand tied with each of `first` and `second`, in the
/// same order: the two differ at most in how the tied classes interleave.
pub open spec fn same_ties(keys: SortKeys, first: Seq<Seq<char>>, second: Seq<Seq<char>>) -> bool {
    forall|entry: Seq<char>| #[trigger]
        first.filter(tied_with(keys, entry)) == second.filter(tied_with(keys, entry))
}

/// An ordered sequence is fixed by the order within its tied classes: two
/// ordered sequences with the same ties are the same sequence.
pub proof fn lemma_ordered_by_ties(keys: SortKeys, first: Seq<Seq<char>>, second: Seq<Seq<char>>)
    requires
        ordered(keys, first),
        ordered(keys, second),
        same_ties(keys, first, second),
    ensures
        first == second,
    decreases first.len() + second.len(),
{
    if first.len() == 0 || second.len() == 0 {
        let longer = if first.len() == 0 {
            second
        } else {
            first
        };
        if longer.len() > 0 {
            let tied = tied_with(keys, longer[0]);
            lemma_precedes_asymmetric(keys, longer[0], longer[0]);
            lemma_filter_members(first, tied);
            assert(longer.filter(tied).contains(longer[0]));
        }
    } else {
        let a = first[0];
        let b = second[0];
        let first_rest = first.drop_first();
        let second_rest = second.drop_first();
        let tied_a = tied_with(keys, a);
        assert(first =~= seq![a] + first_rest);
        assert(second =~= seq![b] + second_rest);
        lemma_precedes_asymmetric(keys, a, a);
        lemma_precedes_asymmetric(keys, b, b);
        assert(tied_a(b)) by {
            let tied_b = tied_with(keys, b);
            lemma_filter_members(second, tied_a);
            lemma_filter_members(first, tied_b);
            assert(first.filter(tied_a).contains(a));
            assert(second.filter(tied_b).contains(b));
        }
        assert(a == b) by {
            lemma_filter_all(seq![a], tied_a);
            lemma_filter_all(seq![b], tied_a);
            Seq::filter_distributes_over_add(seq![a], first_rest, tied_a);
            assert((seq![a] + first_rest.filter(tied_a))[0] == a);
        }
        assert(same_ties(keys, first_rest, second_rest)) by {
            assert forall|entry: Seq<char>| #[trigger]
                first_rest.filter(tied_with(keys, entry)) == second_rest.filter(
                    tied_with(keys, entry),
                ) by {
                let tied = tied_with(keys, entry);
                Seq::filter_distributes_over_add(seq![a], first_rest, tied);
                let head = seq![a].filter(tied);
                let x = first_rest.filter(tied);
                assert(x =~= (head + x).skip(head.len() as int));
            }
        }
        lemma_ordered_by_ties(keys, first_rest, second_rest);
    }
}

/// What the sorted group is, said without saying how it is made: it is the
/// one ordered sequence that keeps the ties of the group.
pub proof fn lemma_sorted_entries_is_the_stable_order(
    keys: SortKeys,
    entries: Seq<Seq<char>>,
    result: Seq<Seq<char>>,
)
    requires
        ordered(keys, result),
        same_ties(keys, result, entries),
    ensures
        result == sorted_entries(keys, entries),
{
    let sorted = sorted_entries(keys, entries);
    lemma_sorted_entries(keys, entries);
    assert(same_ties(keys, result, sorted)) by {
        assert forall|entry: Seq<char>| #[trigger]
            result.filter(tied_with(keys, entry)) == sorted.filter(tied_with(keys, entry)) by {
            lemma_sorted_entries_stable(keys, entries, entry);
        }
    }
    lemma_ordered_by_ties(keys, result, sorted);
}

/// Sorting leaves an ordered group as it is.
pub proof fn lemma_sorted_entries_fixed(keys: SortKeys, entries: Seq<Seq<char>>)
    requires
        ordered(keys, entries),
    ensures
        sorted_entries(keys, entries) == entries,
    decreases entries.len(),
{
    if entries.len() > 0 {
        let front = entries.drop_last();
        lemma_sorted_entries_fixed(keys, front);
    }
}

/// Whether `a` must stand before `b` under `keys`.
pub fn comes_before(keys: SortKeys, a: &str, b: &str) -> (before: bool)
    ensures
        before == precedes(keys, a@, b@),
{
    if keys.depth != Direction::Inactive {
        let depth_a = depth_of(a);
        let depth_b = depth_of(b);
        if depth_a != depth_b {
            return if keys.depth == Direction::Ascending {
                depth_a < depth_b
            } else {
                depth_b < depth_a
            };
        }
    }
    match keys.alphabetical {
        Direction::Inactive => false,
        Direction::Ascending => lex_less(a, b),
        Direction::Descending => lex_less(b, a),
    }
}

/// The stable sort of `entries` under `keys`, as a new vector: the same
/// entries, none standing behind one that it precedes, and those that the
/// keys do not tell apart in the order in which they came.
pub fn sort_entries(keys: SortKeys, entries: &Vec<String>) -> (sorted: Vec<String>)
    ensures
        sorted.deep_view() == sorted_entries(keys, entries.deep_view()),
        sorted.deep_view().to_multiset() == entries.deep_view().to_multiset(),
        ordered(keys, sorted.deep_view()),
        same_ties(keys, sorted.deep_view(), entries.deep_view()),
{
    let mut sorted: Vec<String> = Vec::new();
    let mut next: usize = 0;
    while next < entries.len()
        invariant
            next <= entries.len(),
            sorted.deep_view() == sorted_entries(keys, entries.deep_view().take(next as int)),
        decreases entries.len() - next,
    {
        let entry = entries[next].clone();
        let mut at: usize = sorted.len();
        while at > 0 && comes_before(keys, entry.as_str(), sorted[at - 1].as_str())
            invariant
                at <= sorted.len(),
                forall|j: int|
                    at <= j < sorted.len() ==> precedes(
                        keys,
                        entry@,
                        #[trigger] sorted.deep_view()[j],
                    ),
            decreases at,
        {
            at -= 1;
        }
        proof {
            let before = sorted.deep_view();
            let prefix = entries.deep_view().take(next + 1);
            lemma_insert_entry_at(keys, before, entry@, at as int);
            assert(prefix.drop_last() =~= entries.deep_view().take(next as int));
        }
        sorted.insert(at, entry);
        next += 1;
    }
    proof {
        assert(entries.deep_view().take(next as int) =~= entries.deep_view());
        lemma_sorted_entries(keys, entries.deep_view());
        assert forall|entry: Seq<char>| #[trigger]
            sorted.deep_view().filter(tied_with(keys, entry)) == entries.deep_view().filter(
                tied_with(keys, entry),
            ) by {
            lemma_sorted_entries_stable(keys, entries.deep_view(), entry);
        }
    }
    sorted
}

/// Sorting the groups with one more group behind them sorts that group too.
pub proof fn lemma_sorted_groups_push(
    keys: SortKeys,
    groups: Seq<Seq<Seq<char>>>,
    group: Seq<Seq<char>>,
)
    ensures
        sorted_groups(keys, groups.push(group)) == sorted_groups(keys, groups).push(
            sorted_entries(keys, group),
        ),
{
}

/// Sorting the groups moves no entry from one group to another, adds none
/// and loses none.
pub proof fn lemma_sorted_groups_conserve(keys: SortKeys, groups: Seq<Seq<Seq<char>>>)
    ensures
        sorted_groups(keys, groups).flatten().to_multiset() == groups.flatten().to_multiset(),
    decreases groups.len(),
{
    if groups.len() > 0 {
        let front = groups.drop_last();
        lemma_sorted_groups_conserve(keys, front);
        lemma_sorted_groups_push(keys, front, groups.last());
        assert(front.push(groups.last()) =~= groups);
        sorted_groups(keys, front).lemma_flatten_push(sorted_entries(keys, groups.last()));
        front.lemma_flatten_push(groups.last());
        lemma_sorted_entries(keys, groups.last());
        lemma_multiset_commutative(
            sorted_groups(keys, front).flatten(),
            sorted_entries(keys, groups.last()),
        );
        lemma_multiset_commutative(front.flatten(), groups.last());
    }
}

/// Sorted groups are left as they are by sorting them again.
pub proof fn lemma_sorted_groups_fixed(keys: SortKeys, groups: Seq<Seq<Seq<char>>>)
    ensures
        sorted_groups(keys, sorted_groups(keys, groups)) == sorted_groups(keys, groups),
{
    let once = sorted_groups(keys, groups);
    assert forall|i: int| 0 <= i < once.len() implies sorted_entries(keys, #[trigger] once[i])
        == once[i] by {
        lemma_sorted_entries(keys, groups[i]);
        lemma_sorted_entries_fixed(keys, once[i]);
    }
}

} // verus!
