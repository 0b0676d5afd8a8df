use path_sort::view::summary;
use path_sort::View;

#[test]
fn summary_of_a_directory() {
    let view = View::new();
    assert_eq!(view.get_single_view(0, "0 bytes"), "0 files\n  0 bytes");
    assert_eq!(view.get_single_view(1, "1 byte"), "1 file\n  1 byte");
    assert_eq!(view.get_single_view(12, "3.45 MB"), "12 files\n  3.45 MB");
}

#[test]
fn large_counts_are_written_in_groups_of_three() {
    let view = View::new();
    assert_eq!(view.get_single_view(999, "x"), "999 files\n  x");
    assert_eq!(view.get_single_view(1000, "x"), "1,000 files\n  x");
    assert_eq!(view.get_single_view(1234567, "1.23 GB"), "1,234,567 files\n  1.23 GB");
    assert_eq!(
        view.get_single_view(u64::MAX, ""),
        "18,446,744,073,709,551,615 files\n  "
    );
}

#[test]
fn summary_from_a_written_count() {
    assert_eq!(summary("one", 1, "small"), "one file\n  small");
    assert_eq!(summary("2", 2, "4 bytes"), "2 files\n  4 bytes");
    assert_eq!(summary("", 0, ""), " files\n  ");
}

#[test]
fn report_of_an_entry() {
    let view = View::new();
    assert_eq!(view.get_view("/usr/bin", "12 files\n  3.45 MB"), "/usr/bin\n  12 files\n  3.45 MB");
    assert_eq!(view.get_view("", ""), "\n  ");
}
