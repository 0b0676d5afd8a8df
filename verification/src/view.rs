//! Per-entry directory summaries: how many files a directory of the path
//! list holds and how large they are together, as text.

use separator::Separatable;
use vstd::prelude::*;
use vstd::view::View as _;

verus! {

/// The text that the separator crate writes for `count`: its decimal digits
/// with a comma between groups of three. It is named here, not defined.
pub uninterp spec fn separated_decimal(count: u64) -> Seq<char>;

/// `Separatable::separated_string` of the separator crate on a `u64`. Taken
/// on trust and not proved here: the text returned is a function of the
/// number alone, the one that `separated_decimal` names.
#[verifier::external_body]
fn separated(count: u64) -> (text: String)
    ensures
        text@ == separated_decimal(count),
{
    count.separated_string()
}

/// The summary of a directory: the count, `file` or `files`, and on a second
/// line, indented by two spaces, the size.
pub open spec fn summary_text(count_text: Seq<char>, num_files: u64, size_text: Seq<char>) -> Seq<
    char,
> {
    count_text + seq![' ', 'f', 'i', 'l', 'e'] + (if num_files == 1 {
        Seq::<char>::empty()
    } else {
        seq!['s']
    }) + seq!['\n', ' ', ' '] + size_text
}

/// An entry of the path list with what is reported of it on a second line,
/// indented by two spaces.
pub open spec fn report_text(path: Seq<char>, report: Seq<char>) -> Seq<char> {
    path + seq!['\n', ' ', ' '] + report
}

/// Puts the summary of a directory together from the written count, the
/// count itself and the written size.
pub fn summary(count_text: &str, num_files: u64, size_text: &str) -> (text: String)
    ensures
        text@ == summary_text(count_text@, num_files, size_text@),
{
    proof {
        reveal_strlit(" file");
        reveal_strlit("s");
        reveal_strlit("\n  ");
    }
    let mut text = String::from_str(count_text);
    text.append(" file");
    if num_files != 1 {
        text.append("s");
    }
    text.append("\n  ");
    text.append(size_text);
    text
}

/// Formats the summary of one directory of the path list.
pub struct View;

impl View {
    pub fn new() -> (view: Self) {
        View {  }
    }

    /// The report of one entry: the entry, and indented below it its summary
    /// or the reason why there is none.
    pub fn get_view(&self, path: &str, report: &str) -> (text: String)
        ensures
            text@ == report_text(path@, report@),
    {
        proof {
            reveal_strlit("\n  ");
        }
        let mut text = String::from_str(path);
        text.append("\n  ");
        text.append(report);
        text
    }

    /// The summary of a directory with `num_files` files, whose total size
    /// is written `size_text`.
    pub fn get_single_view(&self, num_files: u64, size_text: &str) -> (text: String)
        ensures
            text@ == summary_text(separated_decimal(num_files), num_files, size_text@),
    {
        let count_text = separated(num_files);
        summary(count_text.as_str(), num_files, size_text)
    }
}

} // verus!
