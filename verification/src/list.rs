//! Path lists as text: splitting a list into its entries and joining entries
//! back into a list.

use crate::text::chars_of;
use vstd::prelude::*;

verus! {

/// The entries of `list`: the runs between delimiters, empty runs included.
/// A list with n delimiters has n + 1 entries; the empty list has one, empty.
pub open spec fn split_on(list: Seq<char>, delimiter: char) -> Seq<Seq<char>>
    decreases list.len(),
{
    if list.len() == 0 {
        seq![Seq::empty()]
    } else {
        let before = split_on(list.drop_last(), delimiter);
        if list.last() == delimiter {
            before.push(Seq::empty())
        } else {
            before.drop_last().push(before.last().push(list.last()))
        }
    }
}

/// The entries in order with one delimiter between neighbours.
pub open spec fn join_with(entries: Seq<Seq<char>>, delimiter: char) -> Seq<char>
    decreases entries.len(),
{
    if entries.len() == 0 {
        Seq::empty()
    } else if entries.len() == 1 {
        entries[0]
    } else {
        join_with(entries.drop_last(), delimiter).push(delimiter) + entries.last()
    }
}

/// No entry holds the delimiter.
pub open spec fn delimiter_free(entries: Seq<Seq<char>>, delimiter: char) -> bool {
    forall|i: int| 0 <= i < entries.len() ==> !(#[trigger] entries[i]).contains(delimiter)
}

/// Splitting yields at least one entry, none with a delimiter in it, and
/// joining them gives the list back.
pub proof fn lemma_split_on(list: Seq<char>, delimiter: char)
    ensures
        split_on(list, delimiter).len() >= 1,
        delimiter_free(split_on(list, delimiter), delimiter),
        join_with(split_on(list, delimiter), delimiter) == list,
    decreases list.len(),
{
    let entries = split_on(list, delimiter);
    if list.len() > 0 {
        let front = list.drop_last();
        let before = split_on(front, delimiter);
        lemma_split_on(front, delimiter);
        assert(front.push(list.last()) =~= list);
        if list.last() == delimiter {
            assert(entries.drop_last() =~= before);
        } else if before.len() != 1 {
            assert(entries.drop_last() =~= before.drop_last());
        }
    }
}

/// Text without a delimiter, put behind a list, lengthens the last entry.
proof fn lemma_split_extended(list: Seq<char>, more: Seq<char>, delimiter: char)
    requires
        !more.contains(delimiter),
    ensures
        split_on(list + more, delimiter) == split_on(list, delimiter).drop_last().push(
            split_on(list, delimiter).last() + more,
        ),
    decreases more.len(),
{
    let entries = split_on(list, delimiter);
    if more.len() > 0 {
        let front = more.drop_last();
        lemma_split_extended(list, front, delimiter);
        assert((list + more).drop_last() =~= list + front);
        assert((entries.last() + front).push(more.last()) =~= entries.last() + more);
    }
}

/// Splitting what was joined gives the entries back, where there is at least
/// one and none holds the delimiter.
pub proof fn lemma_split_joined(entries: Seq<Seq<char>>, delimiter: char)
    requires
        entries.len() >= 1,
        delimiter_free(entries, delimiter),
    ensures
        split_on(join_with(entries, delimiter), delimiter) == entries,
    decreases entries.len(),
{
    if entries.len() == 1 {
        lemma_split_extended(Seq::empty(), entries[0], delimiter);
    } else {
        let front = entries.drop_last();
        lemma_split_joined(front, delimiter);
        let head = join_with(front, delimiter).push(delimiter);
        assert(head.drop_last() =~= join_with(front, delimiter));
        lemma_split_extended(head, entries.last(), delimiter);
    }
}

/// `String::push` of std. Taken from its documentation and not proved here:
/// the text afterwards is the text before with `c` behind it.
#[verifier::external_body]
fn push_char(text: &mut String, c: char)
    ensures
        final(text)@ == old(text)@.push(c),
{
    text.push(c);
}

/// Splits `list` at every `delimiter`: into the one or more entries, none
/// with a delimiter in it, that joined give the list back.
pub fn split_list(list: &str, delimiter: char) -> (entries: Vec<String>)
    ensures
        entries.deep_view() == split_on(list@, delimiter),
        entries.len() >= 1,
        delimiter_free(entries.deep_view(), delimiter),
        join_with(entries.deep_view(), delimiter) == list@,
{
    let chars = chars_of(list);
    let mut entries: Vec<String> = Vec::new();
    let mut current = String::new();
    let mut at: usize = 0;
    while at < chars.len()
        invariant
            at <= chars.len(),
            chars@ == list@,
            entries.deep_view().push(current@) == split_on(chars@.take(at as int), delimiter),
        decreases chars.len() - at,
    {
        proof {
            assert(chars@.take(at + 1).drop_last() =~= chars@.take(at as int));
        }
        if chars[at] == delimiter {
            entries.push(current);
            current = String::new();
        } else {
            push_char(&mut current, chars[at]);
        }
        at += 1;
    }
    let ghost done = entries.deep_view();
    let ghost run = current@;
    entries.push(current);
    proof {
        assert(entries.deep_view() =~= done.push(run));
        assert(chars@.take(at as int) =~= chars@);
        lemma_split_on(list@, delimiter);
    }
    entries
}

/// Joins `entries` with `delimiter` between neighbours.
pub fn join_list(entries: &Vec<String>, delimiter: char) -> (list: String)
    ensures
        list@ == join_with(entries.deep_view(), delimiter),
{
    let mut list = String::new();
    let mut next: usize = 0;
    while next < entries.len()
        invariant
            next <= entries.len(),
            list@ == join_with(entries.deep_view().take(next as int), delimiter),
        decreases entries.len() - next,
    {
        proof {
            let prefix = entries.deep_view().take(next + 1);
            assert(prefix.drop_last() =~= entries.deep_view().take(next as int));
        }
        if next > 0 {
            push_char(&mut list, delimiter);
        }
        list.append(entries[next].as_str());
        next += 1;
    }
    assert(entries.deep_view().take(next as int) =~= entries.deep_view());
    list
}

} // verus!
