use path_sort::entry::{depth_of, entry_is_absolute};
use path_sort::list::{join_list, split_list};
use path_sort::representation::{Direction, SortKeys};
use path_sort::sorter::comes_before;
use path_sort::text::{chars_of, contains_substring, lex_less};
use path_sort::{PATH_LIST_DELIMITER, PATH_SEPARATOR};

fn strings(items: &[&str]) -> Vec<String> {
    items.iter().map(|item| item.to_string()).collect()
}

#[test]
fn delimiter_and_separator() {
    assert_eq!(PATH_LIST_DELIMITER, ':');
    assert_eq!(PATH_SEPARATOR, '/');
}

#[test]
fn characters_of_a_text() {
    assert_eq!(chars_of(""), Vec::<char>::new());
    assert_eq!(chars_of("/a"), vec!['/', 'a']);
    assert_eq!(chars_of("é/λ"), vec!['é', '/', 'λ']);
}

#[test]
fn substring_search() {
    assert!(contains_substring("/usr/local/bin", "/local"));
    assert!(contains_substring("/usr/local/bin", "/usr/local/bin"));
    assert!(contains_substring("/usr/local/bin", "bin"));
    assert!(contains_substring("/usr/local/bin", ""));
    assert!(contains_substring("", ""));
    assert!(!contains_substring("", "a"));
    assert!(!contains_substring("/usr/local/bin", "/usr/local/bin/"));
    assert!(!contains_substring("/usr/local/bin", "/opt"));
    assert!(!contains_substring("/usr/local/bin", "usrlocal"));
    assert!(contains_substring("aab", "ab"));
    assert!(contains_substring("/straße/λ", "ße/λ"));
}

#[test]
fn lexicographic_order() {
    assert!(lex_less("", "a"));
    assert!(!lex_less("a", ""));
    assert!(!lex_less("", ""));
    assert!(!lex_less("/a", "/a"));
    assert!(lex_less("/a", "/a/b"));
    assert!(lex_less("/a/b", "/b"));
    assert!(!lex_less("/b", "/a/b"));
    assert!(lex_less("/B", "/a"));
    assert!(lex_less("/a-b", "/a/b"));
    assert!(lex_less("/z", "/é"));
    assert_eq!(lex_less("/é", "/\u{10000}"), "/é" < "/\u{10000}");
    assert_eq!(lex_less("/\u{ffff}", "/\u{10000}"), "/\u{ffff}" < "/\u{10000}");
}

#[test]
fn depth_counts_components() {
    assert_eq!(depth_of("/usr/local/bin"), 3);
    assert_eq!(depth_of("/usr/local/bin/"), 3);
    assert_eq!(depth_of("/usr//local///bin//"), 3);
    assert_eq!(depth_of("usr/local/bin"), 3);
    assert_eq!(depth_of("/a"), 1);
    assert_eq!(depth_of("a"), 1);
    assert_eq!(depth_of("/"), 0);
    assert_eq!(depth_of("//"), 0);
    assert_eq!(depth_of(""), 0);
}

#[test]
fn depth_skips_single_dots_behind_the_start() {
    assert_eq!(depth_of("/a/./b"), 2);
    assert_eq!(depth_of("/a/b/."), 2);
    assert_eq!(depth_of("/./a"), 1);
    assert_eq!(depth_of("."), 1);
    assert_eq!(depth_of("./a"), 2);
    assert_eq!(depth_of("././a"), 2);
    assert_eq!(depth_of("/a/../b"), 3);
    assert_eq!(depth_of("/a/.b/c."), 3);
    assert_eq!(depth_of("/a/.../b"), 3);
}

#[test]
fn absolute_entries_start_with_the_separator() {
    assert!(entry_is_absolute("/"));
    assert!(entry_is_absolute("/usr/bin"));
    assert!(entry_is_absolute("//x"));
    assert!(!entry_is_absolute(""));
    assert!(!entry_is_absolute("usr/bin"));
    assert!(!entry_is_absolute("./bin"));
    assert!(!entry_is_absolute(" /bin"));
}

#[test]
fn splitting_a_list() {
    assert_eq!(split_list("", ':'), strings(&[""]));
    assert_eq!(split_list("a", ':'), strings(&["a"]));
    assert_eq!(split_list("a:b", ':'), strings(&["a", "b"]));
    assert_eq!(split_list(":a::b:", ':'), strings(&["", "a", "", "b", ""]));
    assert_eq!(split_list("a:b;c", ';'), strings(&["a:b", "c"]));
    assert_eq!(split_list("/é:/λ", ':'), strings(&["/é", "/λ"]));
}

#[test]
fn joining_a_list() {
    assert_eq!(join_list(&Vec::new(), ':'), "");
    assert_eq!(join_list(&strings(&[""]), ':'), "");
    assert_eq!(join_list(&strings(&["a"]), ':'), "a");
    assert_eq!(join_list(&strings(&["a", "b", "c"]), ':'), "a:b:c");
    assert_eq!(join_list(&strings(&["", "a", ""]), ':'), ":a:");
    assert_eq!(join_list(&strings(&["a", "b"]), ';'), "a;b");
}

#[test]
fn splitting_and_joining_undo_each_other() {
    for list in ["", ":", "/a", "/a:/b", ":/a::/b:", "/usr/bin:/bin:/opt/x"] {
        assert_eq!(join_list(&split_list(list, ':'), ':'), list);
    }
    let entries = strings(&["/a", "", "/b/c", ""]);
    assert_eq!(split_list(&join_list(&entries, ':'), ':'), entries);
}

#[test]
fn directions_of_settings() {
    assert_eq!(Direction::from_setting(None), Direction::Inactive);
    assert_eq!(Direction::from_setting(Some(0)), Direction::Inactive);
    assert_eq!(Direction::from_setting(Some(1)), Direction::Ascending);
    assert_eq!(Direction::from_setting(Some(127)), Direction::Ascending);
    assert_eq!(Direction::from_setting(Some(-1)), Direction::Descending);
    assert_eq!(Direction::from_setting(Some(-128)), Direction::Descending);
}

#[test]
fn precedence_under_the_keys() {
    let off = SortKeys { depth: Direction::Inactive, alphabetical: Direction::Inactive };
    assert!(!comes_before(off, "/a", "/b"));
    assert!(!comes_before(off, "/b", "/a"));
    let text = SortKeys { depth: Direction::Inactive, alphabetical: Direction::Ascending };
    assert!(comes_before(text, "/a/z", "/b"));
    assert!(!comes_before(text, "/b", "/a/z"));
    assert!(!comes_before(text, "/b", "/b"));
    let depth = SortKeys { depth: Direction::Ascending, alphabetical: Direction::Inactive };
    assert!(comes_before(depth, "/b", "/a/z"));
    assert!(!comes_before(depth, "/a/z", "/b"));
    assert!(!comes_before(depth, "/a", "/b"));
    assert!(!comes_before(depth, "/b", "/a"));
    let both = SortKeys { depth: Direction::Descending, alphabetical: Direction::Descending };
    assert!(comes_before(both, "/a/z", "/b"));
    assert!(comes_before(both, "/b", "/a"));
    assert!(!comes_before(both, "/a", "/b"));
    assert!(!comes_before(both, "/b", "/a/z"));
}
