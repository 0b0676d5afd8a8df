use path_sort::{FullPath, Order, OsPathHandler, Path, PathElements, PathSort, Rules, Sort, SortFile};

fn strings(items: &[&str]) -> Vec<String> {
    items.iter().map(|item| item.to_string()).collect()
}

fn document(paths: Option<Vec<Path>>, sort: Option<Sort>) -> SortFile {
    SortFile {
        rules: Rules {
            order: Some(Order { paths, sort }),
            must_exist: None,
            must_be_unique: None,
            must_be_absolute: None,
        },
    }
}

fn keys(alphabetical: Option<i8>, path_component_length: Option<i8>) -> Option<Sort> {
    Some(Sort { alphabetical, path_component_length })
}

fn exact(text: &str) -> Path {
    Path::Exact(text.to_string())
}

fn contains(text: &str) -> Path {
    Path::Contains(text.to_string())
}

fn groups_of(full: &FullPath) -> Vec<Vec<String>> {
    full.paths().iter().map(|group| group.elements().clone()).collect()
}

fn group(input: &[&str], document: &SortFile) -> Option<Vec<Vec<String>>> {
    let paths = strings(input);
    let handler = OsPathHandler::new(paths.clone(), &paths, document);
    handler.create_full_path().map(|full| groups_of(&full))
}

fn run(input: &[&str], document: &SortFile) -> Option<String> {
    let paths = strings(input);
    let handler = OsPathHandler::new(paths.clone(), &paths, document);
    let mut full: FullPath = handler.create_full_path()?;
    full.sort(document);
    Some(full.to_string())
}

fn sorted(input: &[&str], sort: Option<Sort>) -> Vec<String> {
    let document = document(None, sort);
    let mut group = PathElements::new(strings(input));
    group.sort(&document);
    group.elements().clone()
}

#[test]
fn exact_rule_pulls_its_entry_to_the_front() {
    let doc = document(Some(vec![exact("/y"), Path::Default(true)]), None);
    assert_eq!(run(&["/x", "/y", "/z"], &doc), Some("/y:/x:/z".to_string()));
    assert_eq!(
        group(&["/x", "/y", "/z"], &doc),
        Some(vec![strings(&["/y"]), strings(&["/x", "/z"])])
    );
}

#[test]
fn contains_rule_keeps_the_order_of_its_entries() {
    let doc = document(Some(vec![contains("/opt"), Path::Default(true)]), None);
    assert_eq!(
        run(&["/opt/a", "/usr/bin", "/opt/b"], &doc),
        Some("/opt/a:/opt/b:/usr/bin".to_string())
    );
    assert_eq!(
        group(&["/opt/a", "/usr/bin", "/opt/b"], &doc),
        Some(vec![strings(&["/opt/a", "/opt/b"]), strings(&["/usr/bin"])])
    );
}

#[test]
fn depth_sort_ascending() {
    let doc = document(Some(vec![Path::Default(true)]), keys(None, Some(1)));
    assert_eq!(sorted(&["/a/b/c", "/a", "/a/b"], keys(None, Some(1))), strings(&["/a", "/a/b", "/a/b/c"]));
    assert_eq!(run(&["/a/b/c", "/a", "/a/b"], &doc), Some("/a:/a/b:/a/b/c".to_string()));
}

#[test]
fn depth_sort_descending() {
    assert_eq!(
        sorted(&["/a/b", "/a", "/a/b/c", "/z"], keys(None, Some(-1))),
        strings(&["/a/b/c", "/a/b", "/a", "/z"])
    );
}

#[test]
fn depth_sort_keeps_the_order_within_a_depth() {
    assert_eq!(
        sorted(&["/z/z", "/b", "/a/a", "/a", "/m/m"], keys(None, Some(1))),
        strings(&["/b", "/a", "/z/z", "/a/a", "/m/m"])
    );
    assert_eq!(
        sorted(&["/z/z", "/b", "/a/a", "/a", "/m/m"], keys(Some(0), Some(-3))),
        strings(&["/z/z", "/a/a", "/m/m", "/b", "/a"])
    );
}

#[test]
fn unmatched_entries_are_dropped_without_default() {
    let doc = document(Some(vec![exact("/a")]), None);
    assert_eq!(run(&["/a", "/b"], &doc), Some("/a".to_string()));
    assert_eq!(group(&["/a", "/b"], &doc), Some(vec![strings(&["/a"])]));
}

#[test]
fn reverse_alphabetical_within_depth_group() {
    let doc = document(Some(vec![Path::Default(true)]), keys(Some(-1), Some(1)));
    assert_eq!(run(&["/a/c", "/a/b"], &doc), Some("/a/c:/a/b".to_string()));
    assert_eq!(run(&["/a/b", "/a/c"], &doc), Some("/a/c:/a/b".to_string()));
    assert_eq!(
        run(&["/a/b", "/x", "/a/c", "/y"], &doc),
        Some("/y:/x:/a/c:/a/b".to_string())
    );
}

#[test]
fn alphabetical_sort_alone() {
    assert_eq!(
        sorted(&["/b", "/a/z", "/c", "/a"], keys(Some(1), None)),
        strings(&["/a", "/a/z", "/b", "/c"])
    );
    assert_eq!(
        sorted(&["/b", "/a/z", "/c", "/a"], keys(Some(-1), Some(0))),
        strings(&["/c", "/b", "/a/z", "/a"])
    );
}

#[test]
fn alphabetical_and_depth_ascending() {
    assert_eq!(
        sorted(&["/b/x", "/b", "/a/y", "/a", "/a/b/c"], keys(Some(5), Some(7))),
        strings(&["/a", "/b", "/a/y", "/b/x", "/a/b/c"])
    );
}

#[test]
fn inactive_keys_leave_the_group_unchanged() {
    let input = ["/c", "/a/b", "/b", "/a"];
    assert_eq!(sorted(&input, None), strings(&input));
    assert_eq!(sorted(&input, keys(None, None)), strings(&input));
    assert_eq!(sorted(&input, keys(Some(0), Some(0))), strings(&input));
    let no_order = SortFile {
        rules: Rules { order: None, must_exist: None, must_be_unique: None, must_be_absolute: None },
    };
    let mut group = PathElements::new(strings(&input));
    group.sort(&no_order);
    assert_eq!(group.elements(), &strings(&input));
}

#[test]
fn trailing_and_doubled_separators_do_not_change_the_depth() {
    assert_eq!(
        sorted(&["/a/b/", "/c//", "/a//b/c", "/"], keys(None, Some(1))),
        strings(&["/", "/c//", "/a/b/", "/a//b/c"])
    );
    assert_eq!(
        sorted(&["/a/b", "/c/", "a/b", "c"], keys(None, Some(1))),
        strings(&["/c/", "c", "/a/b", "a/b"])
    );
}

#[test]
fn uniqueness_keeps_first_occurrence() {
    let doc = SortFile {
        rules: Rules {
            order: Some(Order { paths: Some(vec![Path::Default(true)]), sort: None }),
            must_exist: None,
            must_be_unique: Some(true),
            must_be_absolute: None,
        },
    };
    let input = strings(&["/a", "/b", "/a"]);
    let handler = OsPathHandler::new(input.clone(), &input, &doc);
    assert_eq!(handler.paths(), &strings(&["/a", "/b"]));
    assert_eq!(run(&["/a", "/b", "/a"], &doc), Some("/a:/b".to_string()));
}

#[test]
fn filters_are_off_unless_set_to_true() {
    let doc = SortFile {
        rules: Rules {
            order: None,
            must_exist: Some(false),
            must_be_unique: Some(false),
            must_be_absolute: None,
        },
    };
    let input = strings(&["b", "/a", "b", ""]);
    let handler = OsPathHandler::new(input.clone(), &Vec::new(), &doc);
    assert_eq!(handler.paths(), &input);
}

#[test]
fn missing_entries_are_dropped_where_existence_is_enforced() {
    let doc = SortFile {
        rules: Rules {
            order: None,
            must_exist: Some(true),
            must_be_unique: None,
            must_be_absolute: None,
        },
    };
    let existing = strings(&["/bin", "/usr/bin"]);
    let handler =
        OsPathHandler::new(strings(&["/usr/bin", "/nowhere", "/bin", "/usr/bin", ""]), &existing, &doc);
    assert_eq!(handler.paths(), &strings(&["/usr/bin", "/bin", "/usr/bin"]));
    let none = OsPathHandler::new(strings(&["/usr/bin", "/bin"]), &Vec::new(), &doc);
    assert_eq!(none.paths(), &Vec::<String>::new());
}

#[test]
fn relative_entries_are_dropped_where_absoluteness_is_enforced() {
    let doc = SortFile {
        rules: Rules {
            order: None,
            must_exist: None,
            must_be_unique: None,
            must_be_absolute: Some(true),
        },
    };
    let input = strings(&["bin", "/bin", "", "./x", "/", "~/bin", "//opt"]);
    let handler = OsPathHandler::new(input.clone(), &input, &doc);
    assert_eq!(handler.paths(), &strings(&["/bin", "/", "//opt"]));
}

#[test]
fn filters_apply_in_the_order_existence_absoluteness_uniqueness() {
    let doc = SortFile {
        rules: Rules {
            order: None,
            must_exist: Some(true),
            must_be_unique: Some(true),
            must_be_absolute: Some(true),
        },
    };
    let existing = strings(&["/bin", "rel", "/opt"]);
    let handler = OsPathHandler::new(
        strings(&["rel", "/gone", "/opt", "/bin", "/opt", "rel", "/bin", "/gone"]),
        &existing,
        &doc,
    );
    assert_eq!(handler.paths(), &strings(&["/opt", "/bin"]));
}

#[test]
fn no_ordering_means_no_full_path() {
    let no_order = SortFile {
        rules: Rules { order: None, must_exist: None, must_be_unique: None, must_be_absolute: None },
    };
    assert_eq!(run(&["/a"], &no_order), None);
    let no_list = document(None, keys(Some(1), Some(1)));
    assert_eq!(run(&["/a"], &no_list), None);
    let empty_list = document(Some(vec![]), None);
    assert_eq!(run(&["/a"], &empty_list), Some(String::new()));
    assert_eq!(group(&["/a"], &empty_list), Some(vec![]));
}

#[test]
fn only_the_first_catch_all_takes_the_rest() {
    let doc = document(
        Some(vec![Path::Default(true), exact("/a"), Path::Default(true), Path::Default(false)]),
        None,
    );
    assert_eq!(
        group(&["/a", "/b", "/c"], &doc),
        Some(vec![strings(&["/b", "/c"]), strings(&["/a"]), vec![]])
    );
    assert_eq!(run(&["/a", "/b", "/c"], &doc), Some("/b:/c:/a".to_string()));
}

#[test]
fn a_catch_all_with_nothing_left_is_an_empty_group() {
    let doc = document(Some(vec![contains("/"), Path::Default(true)]), None);
    assert_eq!(group(&["/a", "/b"], &doc), Some(vec![strings(&["/a", "/b"]), vec![]]));
    assert_eq!(run(&["/a", "/b"], &doc), Some("/a:/b".to_string()));
}

#[test]
fn default_false_emits_nothing() {
    let doc = document(Some(vec![Path::Default(false), exact("/b")]), None);
    assert_eq!(group(&["/a", "/b"], &doc), Some(vec![strings(&["/b"])]));
}

#[test]
fn rules_without_a_match_emit_nothing() {
    let doc = document(Some(vec![exact("/q"), contains("zzz"), exact("/a")]), None);
    assert_eq!(group(&["/a", "/b"], &doc), Some(vec![strings(&["/a"])]));
}

#[test]
fn an_entry_goes_to_the_first_rule_that_claims_it() {
    let doc = document(
        Some(vec![contains("/usr"), exact("/usr/bin"), contains("bin"), Path::Default(true)]),
        None,
    );
    assert_eq!(
        group(&["/bin", "/usr/bin", "/opt", "/usr/lib", "/sbin"], &doc),
        Some(vec![
            strings(&["/usr/bin", "/usr/lib"]),
            strings(&["/bin", "/sbin"]),
            strings(&["/opt"]),
        ])
    );
}

#[test]
fn exact_rule_takes_only_the_first_of_equal_entries() {
    let doc = document(Some(vec![Path::Default(true), exact("/a")]), None);
    assert_eq!(
        group(&["/a", "/a", "/b"], &doc),
        Some(vec![strings(&["/a", "/b"]), strings(&["/a"])])
    );
    let twice = document(Some(vec![exact("/a"), exact("/a"), exact("/a")]), None);
    assert_eq!(
        group(&["/a", "/b", "/a"], &twice),
        Some(vec![strings(&["/a"]), strings(&["/a"])])
    );
}

#[test]
fn contains_with_empty_text_claims_everything() {
    let doc = document(Some(vec![contains(""), Path::Default(true)]), None);
    assert_eq!(
        group(&["/a", "", "b"], &doc),
        Some(vec![strings(&["/a", "", "b"]), vec![]])
    );
}

#[test]
fn each_group_is_sorted_by_itself() {
    let doc = document(
        Some(vec![contains("/opt"), Path::Default(true)]),
        keys(Some(1), Some(1)),
    );
    assert_eq!(
        run(&["/usr/bin", "/opt/z", "/bin", "/opt", "/opt/a"], &doc),
        Some("/opt:/opt/a:/opt/z:/bin:/usr/bin".to_string())
    );
}

#[test]
fn sorting_a_sorted_list_again_changes_nothing() {
    let sorter = PathSort::new();
    let doc = SortFile {
        rules: Rules {
            order: Some(Order {
                paths: Some(vec![exact("/usr/bin"), contains("/opt"), Path::Default(true), exact("/bin")]),
                sort: keys(Some(-1), Some(1)),
            }),
            must_exist: Some(true),
            must_be_unique: Some(true),
            must_be_absolute: Some(true),
        },
    };
    let existing = strings(&["/usr/bin", "/opt/b", "/opt/a/x", "/bin", "/sbin", "/usr/local/bin", "rel"]);
    let list = "/sbin:/opt/b:rel:/usr/local/bin:/bin:/gone:/opt/a/x:/usr/bin:/sbin";
    let once = sorter.sort_path_list(Some(list), &existing, &doc).unwrap();
    assert_eq!(once, "/usr/bin:/opt/b:/opt/a/x:/sbin:/usr/local/bin:/bin");
    let twice = sorter.sort_path_list(Some(&once), &existing, &doc).unwrap();
    assert_eq!(twice, once);
}

#[test]
fn equal_entries_settle_at_once_under_the_alphabetical_key() {
    let sorter = PathSort::new();
    let doc = document(
        Some(vec![Path::Default(true), exact("/a"), contains("/o")]),
        keys(Some(1), None),
    );
    let once = sorter.sort_path_list(Some("/b:/a:/o/x:/a:/o:/a:/o/x"), &Vec::new(), &doc).unwrap();
    assert_eq!(once, "/a:/a:/b:/a:/o:/o/x:/o/x");
    assert_eq!(sorter.sort_path_list(Some(&once), &Vec::new(), &doc), Some(once));
}

#[test]
fn equal_entries_without_the_alphabetical_key_may_take_a_second_round() {
    let sorter = PathSort::new();
    let doc = document(Some(vec![Path::Default(true), exact("/a")]), None);
    let once = sorter.sort_path_list(Some("/a:/a:/b"), &Vec::new(), &doc).unwrap();
    assert_eq!(once, "/a:/b:/a");
    let twice = sorter.sort_path_list(Some(&once), &Vec::new(), &doc).unwrap();
    assert_eq!(twice, "/b:/a:/a");
    assert_eq!(sorter.sort_path_list(Some(&twice), &Vec::new(), &doc), Some(twice));
}

#[test]
fn sorting_an_empty_result_again_gives_it_back() {
    let sorter = PathSort::new();
    let doc = document(Some(vec![exact("/a")]), None);
    let once = sorter.sort_path_list(Some("/b:/c"), &Vec::new(), &doc).unwrap();
    assert_eq!(once, "");
    assert_eq!(sorter.sort_path_list(Some(&once), &Vec::new(), &doc), Some(String::new()));
    let all = document(Some(vec![Path::Default(true)]), None);
    assert_eq!(sorter.sort_path_list(Some(""), &Vec::new(), &all), Some(String::new()));
}

#[test]
fn a_single_catch_all_rearranges_the_input() {
    let doc = document(Some(vec![Path::Default(true)]), keys(Some(1), Some(-1)));
    let input = ["/b", "/a/b", "/b", "", "rel", "/a/b/c", "/a/b"];
    let paths = strings(&input);
    let handler = OsPathHandler::new(paths.clone(), &Vec::new(), &doc);
    let mut full = handler.create_full_path().unwrap();
    full.sort(&doc);
    let mut output: Vec<String> = groups_of(&full).concat();
    assert_eq!(output, strings(&["/a/b/c", "/a/b", "/a/b", "/b", "/b", "rel", ""]));
    let mut expected = paths;
    output.sort();
    expected.sort();
    assert_eq!(output, expected);
}

#[test]
fn unset_path_list_has_no_entries() {
    assert_eq!(OsPathHandler::get_path(None), Vec::<String>::new());
    let sorter = PathSort::new();
    let doc = document(Some(vec![Path::Default(true)]), None);
    assert_eq!(sorter.sort_path_list(None, &Vec::new(), &doc), Some(String::new()));
}

#[test]
fn empty_segments_of_the_path_list_are_entries() {
    assert_eq!(OsPathHandler::get_path(Some("")), strings(&[""]));
    assert_eq!(OsPathHandler::get_path(Some("/a")), strings(&["/a"]));
    assert_eq!(OsPathHandler::get_path(Some("/a::/b:")), strings(&["/a", "", "/b", ""]));
    assert_eq!(OsPathHandler::get_path(Some(":")), strings(&["", ""]));
    let sorter = PathSort::new();
    let doc = document(Some(vec![Path::Default(true)]), None);
    assert_eq!(
        sorter.sort_path_list(Some("/a::/b:"), &Vec::new(), &doc),
        Some("/a::/b:".to_string())
    );
}

#[test]
fn the_whole_operation_without_a_match_list_gives_nothing() {
    let sorter = PathSort::new();
    let doc = document(None, None);
    assert_eq!(sorter.sort_path_list(Some("/a:/b"), &Vec::new(), &doc), None);
}

#[test]
fn built_in_document_is_used_when_none_is_supplied() {
    let doc = PathSort::new().get_sort_file(None);
    assert_eq!(doc.rules.must_exist, Some(true));
    assert_eq!(doc.rules.must_be_unique, Some(true));
    assert_eq!(doc.rules.must_be_absolute, None);
    let order = doc.rules.order.as_ref().unwrap();
    assert!(matches!(order.paths.as_deref(), Some([Path::Default(true)])));
    let sort = order.sort.as_ref().unwrap();
    assert_eq!(sort.alphabetical, Some(1));
    assert_eq!(sort.path_component_length, Some(1));
    assert_eq!(run(&["/b/c", "/b", "/a", "/b"], &doc), Some("/a:/b:/b/c".to_string()));
}

#[test]
fn a_supplied_document_is_handed_back() {
    let supplied = document(Some(vec![exact("/a")]), keys(Some(-1), None));
    let doc = PathSort::new().get_sort_file(Some(supplied));
    assert_eq!(doc.rules.must_exist, None);
    let order = doc.rules.order.as_ref().unwrap();
    assert_eq!(order.sort.as_ref().unwrap().alphabetical, Some(-1));
    assert_eq!(run(&["/b", "/a"], &doc), Some("/a".to_string()));
}

#[test]
fn joining_puts_one_delimiter_between_entries() {
    let doc = document(Some(vec![Path::Default(true)]), None);
    assert_eq!(run(&[], &doc), Some(String::new()));
    assert_eq!(run(&["/a"], &doc), Some("/a".to_string()));
    assert_eq!(run(&["/a", "/b"], &doc), Some("/a:/b".to_string()));
    assert_eq!(run(&["", ""], &doc), Some(":".to_string()));
}
