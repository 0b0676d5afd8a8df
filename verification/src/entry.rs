//! What can be read off one path entry: whether it is absolute, and how deep
//! it lies.

use crate::text::chars_of;
use vstd::prelude::*;

verus! {

/// The character that separates the entries of a path list.
pub const PATH_LIST_DELIMITER: char = ':';

/// The character that separates the components of one path entry.
pub const PATH_SEPARATOR: char = '/';

/// An entry is absolute when it starts with the separator.
pub open spec fn is_absolute_entry(entry: Seq<char>) -> bool {
    entry.len() > 0 && entry[0] == PATH_SEPARATOR
}

/// A component starts at `at`: a character other than the separator that
/// stands first or follows a separator.
pub open spec fn starts_component(entry: Seq<char>, at: int) -> bool {
    &&& 0 <= at < entry.len()
    &&& entry[at] != PATH_SEPARATOR
    &&& (at == 0 || entry[at - 1] == PATH_SEPARATOR)
}

/// The component that starts at `at` is a single dot.
pub open spec fn is_lone_dot(entry: Seq<char>, at: int) -> bool {
    &&& 0 <= at < entry.len()
    &&& entry[at] == '.'
    &&& (at + 1 == entry.len() || entry[at + 1] == PATH_SEPARATOR)
}

/// A component that counts towards the depth starts at `at`. A single dot
/// names the directory it stands in and counts only at the very start.
pub open spec fn counted_component(entry: Seq<char>, at: int) -> bool {
    starts_component(entry, at) && !(at > 0 && is_lone_dot(entry, at))
}

/// The number of counted components that start before index `end`.
pub open spec fn depth_before(entry: Seq<char>, end: int) -> nat
    decreases end,
{
    if end <= 0 {
        0
    } else {
        depth_before(entry, end - 1) + if counted_component(entry, end - 1) {
            1nat
        } else {
            0nat
        }
    }
}

/// The depth of an entry: the number of its components. Empty components
/// (a leading, doubled or trailing separator) and the root do not count, so
/// `/usr/local/bin`, `/usr//local/bin/` and `usr/local/bin` all have depth 3.
pub open spec fn path_depth(entry: Seq<char>) -> nat {
    depth_before(entry, entry.len() as int)
}

pub proof fn lemma_depth_bounded(entry: Seq<char>, end: int)
    ensures
        depth_before(entry, end) <= if end <= 0 { 0 } else { end },
    decreases end,
{
    if end > 0 {
        lemma_depth_bounded(entry, end - 1);
    }
}

pub fn entry_is_absolute(entry: &str) -> (absolute: bool)
    ensures
        absolute == is_absolute_entry(entry@),
{
    !entry.is_empty() && entry.get_char(0) == PATH_SEPARATOR
}

pub fn depth_of(entry: &str) -> (depth: usize)
    ensures
        depth == path_depth(entry@),
{
    let chars = chars_of(entry);
    let mut depth: usize = 0;
    let mut at: usize = 0;
    while at < chars.len()
        invariant
            at <= chars.len(),
            chars@ == entry@,
            depth == depth_before(entry@, at as int),
        decreases chars.len() - at,
    {
        let starts = chars[at] != PATH_SEPARATOR && (at == 0 || chars[at - 1] == PATH_SEPARATOR);
        let lone_dot = chars[at] == '.' && (at + 1 == chars.len() || chars[at + 1]
            == PATH_SEPARATOR);
        proof {
            lemma_depth_bounded(entry@, at as int);
        }
        if starts && !(at > 0 && lone_dot) {
            depth += 1;
        }
        at += 1;
    }
    depth
}

} // verus!
