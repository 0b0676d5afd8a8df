//! Facts about filtered, flattened and duplicate-free sequences that the
//! pipeline's laws rest on.

use vstd::prelude::*;
use vstd::seq_lib::{lemma_flatten_concat, lemma_multiset_commutative, to_multiset_build};

verus! {

/// Every entry of `s` passes `test`.
pub open spec fn all_pass<A>(s: Seq<A>, test: spec_fn(A) -> bool) -> bool {
    forall|i: int| 0 <= i < s.len() ==> test(#[trigger] s[i])
}

/// No entry of `s` passes `test`.
pub open spec fn none_pass<A>(s: Seq<A>, test: spec_fn(A) -> bool) -> bool {
    forall|i: int| 0 <= i < s.len() ==> !test(#[trigger] s[i])
}

/// The two tests agree on every entry of `s`.
pub open spec fn agree_on<A>(s: Seq<A>, p: spec_fn(A) -> bool, q: spec_fn(A) -> bool) -> bool {
    forall|i: int| 0 <= i < s.len() ==> p(#[trigger] s[i]) == q(s[i])
}

/// A filter lets through exactly the entries that pass its test.
pub proof fn lemma_filter_members<A>(s: Seq<A>, test: spec_fn(A) -> bool)
    ensures
        forall|x: A| #[trigger] s.filter(test).contains(x) <==> s.contains(x) && test(x),
        all_pass(s.filter(test), test),
        s.filter(test).len() <= s.len(),
    decreases s.len(),
{
    reveal(Seq::filter);
    if s.len() > 0 {
        let front = s.drop_last();
        lemma_filter_members(front, test);
        assert forall|x: A| #[trigger] s.filter(test).contains(x) <==> s.contains(x) && test(
            x,
        ) by {
            if s.filter(test).contains(x) {
                let i = choose|i: int| 0 <= i < s.filter(test).len() && s.filter(test)[i] == x;
                if i < front.filter(test).len() {
                    assert(front.filter(test).contains(x));
                }
            }
        }
    }
}

/// Where every entry passes, the filter changes nothing.
pub proof fn lemma_filter_all<A>(s: Seq<A>, test: spec_fn(A) -> bool)
    requires
        all_pass(s, test),
    ensures
        s.filter(test) == s,
    decreases s.len(),
{
    reveal(Seq::filter);
    if s.len() > 0 {
        lemma_filter_all(s.drop_last(), test);
    }
}

/// Where no entry passes, the filter leaves nothing.
pub proof fn lemma_filter_none<A>(s: Seq<A>, test: spec_fn(A) -> bool)
    requires
        none_pass(s, test),
    ensures
        s.filter(test) == Seq::<A>::empty(),
    decreases s.len(),
{
    reveal(Seq::filter);
    if s.len() > 0 {
        lemma_filter_none(s.drop_last(), test);
    }
}

/// Two tests that agree on the entries filter alike.
pub proof fn lemma_filter_agree<A>(s: Seq<A>, p: spec_fn(A) -> bool, q: spec_fn(A) -> bool)
    requires
        agree_on(s, p, q),
    ensures
        s.filter(p) == s.filter(q),
    decreases s.len(),
{
    reveal(Seq::filter);
    if s.len() > 0 {
        lemma_filter_agree(s.drop_last(), p, q);
    }
}

/// Filtering by `p` and then by `q` is filtering by both at once.
pub proof fn lemma_filter_twice<A>(
    s: Seq<A>,
    p: spec_fn(A) -> bool,
    q: spec_fn(A) -> bool,
    both: spec_fn(A) -> bool,
)
    requires
        forall|i: int| 0 <= i < s.len() ==> both(#[trigger] s[i]) == (p(s[i]) && q(s[i])),
    ensures
        s.filter(p).filter(q) == s.filter(both),
    decreases s.len(),
{
    reveal(Seq::filter);
    if s.len() > 0 {
        let front = s.drop_last();
        lemma_filter_twice(front, p, q, both);
        if p(s.last()) {
            let kept = front.filter(p).push(s.last());
            assert(kept.drop_last() =~= front.filter(p));
        }
    }
}

/// A test and its opposite split a sequence into two parts that together
/// hold each entry as often as the sequence does.
pub proof fn lemma_filter_split<A>(s: Seq<A>, p: spec_fn(A) -> bool, q: spec_fn(A) -> bool)
    requires
        forall|i: int| 0 <= i < s.len() ==> q(#[trigger] s[i]) == !p(s[i]),
    ensures
        s.filter(p).to_multiset().add(s.filter(q).to_multiset()) == s.to_multiset(),
    decreases s.len(),
{
    reveal(Seq::filter);
    if s.len() > 0 {
        let front = s.drop_last();
        lemma_filter_split(front, p, q);
        assert(front.push(s.last()) =~= s);
        to_multiset_build(front, s.last());
        if p(s.last()) {
            to_multiset_build(front.filter(p), s.last());
        } else {
            to_multiset_build(front.filter(q), s.last());
        }
    } else {
        assert forall|x: A| s.to_multiset().count(x) == 0 by {
            vstd::seq_lib::to_multiset_contains(s, x);
        }
    }
}

/// `x` occurs in `s` once or not at all.
pub open spec fn at_most_once<A>(s: Seq<A>, x: A) -> bool {
    s.to_multiset().count(x) <= 1
}

/// An entry that occurs at most once has one place.
pub proof fn lemma_at_most_once_place<A>(s: Seq<A>, x: A, i: int, j: int)
    requires
        at_most_once(s, x),
        0 <= i < s.len(),
        0 <= j < s.len(),
        s[i] == x,
        s[j] == x,
    ensures
        i == j,
{
    if i != j {
        let (low, high) = if i < j {
            (i, j)
        } else {
            (j, i)
        };
        let head = s.take(high);
        let tail = s.skip(high);
        assert(s =~= head + tail);
        lemma_multiset_commutative(head, tail);
        vstd::seq_lib::to_multiset_contains(head, x);
        vstd::seq_lib::to_multiset_contains(tail, x);
    }
}

/// A filter lets an entry through as often as it occurs, or not at all.
pub proof fn lemma_filter_count<A>(s: Seq<A>, test: spec_fn(A) -> bool, x: A)
    ensures
        s.filter(test).to_multiset().count(x) == if test(x) {
            s.to_multiset().count(x)
        } else {
            0
        },
    decreases s.len(),
{
    reveal(Seq::filter);
    if s.len() > 0 {
        let front = s.drop_last();
        lemma_filter_count(front, test, x);
        assert(front.push(s.last()) =~= s);
        to_multiset_build(front, s.last());
        if test(s.last()) {
            to_multiset_build(front.filter(test), s.last());
        }
    } else {
        vstd::seq_lib::to_multiset_contains(s, x);
    }
}

/// Where `x` occurs at most once, taking out the first entry equal to `x`
/// takes out every entry equal to `x`.
pub proof fn lemma_remove_value_single<A>(s: Seq<A>, x: A, others: spec_fn(A) -> bool)
    requires
        at_most_once(s, x),
        forall|i: int| 0 <= i < s.len() ==> others(#[trigger] s[i]) == (s[i] != x),
    ensures
        s.remove_value(x) == s.filter(others),
{
    s.index_of_first_ensures(x);
    match s.index_of_first(x) {
        Some(at) => {
            let head = s.subrange(0, at);
            let tail = s.subrange(at + 1, s.len() as int);
            assert(s =~= head + seq![x] + tail);
            assert forall|i: int| 0 <= i < tail.len() implies others(#[trigger] tail[i]) by {
                if s[at + 1 + i] == x {
                    lemma_at_most_once_place(s, x, at, at + 1 + i);
                }
            }
            lemma_filter_all(head, others);
            lemma_filter_all(tail, others);
            lemma_filter_none(seq![x], others);
        },
        None => {
            lemma_filter_all(s, others);
        },
    }
}

/// Where `x` occurs exactly once, the entries equal to `x` are `x` alone.
pub proof fn lemma_filter_single<A>(s: Seq<A>, x: A, same: spec_fn(A) -> bool)
    requires
        at_most_once(s, x),
        s.contains(x),
        forall|i: int| 0 <= i < s.len() ==> same(#[trigger] s[i]) == (s[i] == x),
    ensures
        s.filter(same) == seq![x],
{
    let at = choose|at: int| 0 <= at < s.len() && s[at] == x;
    let head = s.subrange(0, at);
    let tail = s.subrange(at + 1, s.len() as int);
    assert(s =~= head + seq![x] + tail);
    assert forall|i: int| 0 <= i < head.len() implies !same(#[trigger] head[i]) by {
        if s[i] == x {
            lemma_at_most_once_place(s, x, at, i);
        }
    }
    assert forall|i: int| 0 <= i < tail.len() implies !same(#[trigger] tail[i]) by {
        if s[at + 1 + i] == x {
            lemma_at_most_once_place(s, x, at, at + 1 + i);
        }
    }
    lemma_filter_none(head, same);
    lemma_filter_none(tail, same);
    lemma_filter_all(seq![x], same);
}

/// Flattening with one group replaced: the groups before it, the new group,
/// the groups behind it.
pub proof fn lemma_flatten_update<A>(groups: Seq<Seq<A>>, place: int, group: Seq<A>)
    requires
        0 <= place < groups.len(),
    ensures
        groups.update(place, group).flatten() == groups.take(place).flatten() + group
            + groups.skip(place + 1).flatten(),
        groups.flatten() == groups.take(place).flatten() + groups[place] + groups.skip(
            place + 1,
        ).flatten(),
{
    let head = groups.take(place);
    let tail = groups.skip(place + 1);
    assert(groups.update(place, group) =~= head + seq![group] + tail);
    assert(groups =~= head + seq![groups[place]] + tail);
    lemma_flatten_concat(head + seq![group], tail);
    lemma_flatten_concat(head, seq![group]);
    lemma_flatten_concat(head + seq![groups[place]], tail);
    lemma_flatten_concat(head, seq![groups[place]]);
    seq![group].lemma_flatten_one_element();
    seq![groups[place]].lemma_flatten_one_element();
}

/// A sequence that holds no entry more often than another holds only
/// entries of that other.
pub proof fn lemma_part_of<A>(part: Seq<A>, whole: Seq<A>)
    requires
        part.to_multiset().subset_of(whole.to_multiset()),
    ensures
        forall|x: A| part.contains(x) ==> whole.contains(x),
{
    assert forall|x: A| part.contains(x) implies whole.contains(x) by {
        vstd::seq_lib::to_multiset_contains(part, x);
        vstd::seq_lib::to_multiset_contains(whole, x);
    }
}

/// A sequence that holds no entry more often than a duplicate-free sequence
/// is duplicate-free.
pub proof fn lemma_part_of_distinct<A>(part: Seq<A>, whole: Seq<A>)
    requires
        whole.no_duplicates(),
        part.to_multiset().subset_of(whole.to_multiset()),
    ensures
        part.no_duplicates(),
{
    whole.lemma_multiset_has_no_duplicates();
    part.lemma_multiset_has_no_duplicates_conv();
}

} // verus!
