use tree_explorer::explorer::TreeExplorer;
use tree_explorer::git::{read_statuses, status_divides};
use tree_explorer::listing::Snapshot;
use tree_explorer::path::TreePath;
use tree_explorer::path_map::PathMap;

fn path(text: &str) -> TreePath {
    TreePath::from_text(text)
}

fn mark(statuses: &PathMap<char>, p: &str) -> Option<char> {
    statuses.get(&path(p)).copied()
}

fn statuses(output: &str) -> PathMap<char> {
    TreeExplorer::get_git_statuses(&path("/r"), Some(&output.as_bytes().to_vec())).unwrap()
}

#[test]
fn marks_come_from_the_first_two_columns() {
    let s = statuses(" M a\nM  b\nMM c\nA  d\n?? e\n D f\n!! g\n");
    assert_eq!(s.len(), 7);
    assert_eq!(mark(&s, "/r/a"), Some('M'));
    assert_eq!(mark(&s, "/r/b"), Some('M'));
    assert_eq!(mark(&s, "/r/c"), Some('M'));
    assert_eq!(mark(&s, "/r/d"), Some('A'));
    assert_eq!(mark(&s, "/r/e"), Some('?'));
    assert_eq!(mark(&s, "/r/f"), Some('D'));
    assert_eq!(mark(&s, "/r/g"), Some('!'));
    assert_eq!(mark(&s, "/r/h"), None);
}

#[test]
fn short_lines_say_nothing() {
    assert_eq!(statuses("").len(), 0);
    assert_eq!(statuses("\n\n M \n?? \n").len(), 0);
    assert_eq!(statuses(" M a").len(), 1);
}

#[test]
fn line_endings_do_not_belong_to_paths() {
    let s = statuses(" M a\r\n M b\n M c\r");
    assert_eq!(mark(&s, "/r/a"), Some('M'));
    assert_eq!(mark(&s, "/r/b"), Some('M'));
    assert_eq!(mark(&s, "/r/c"), None);
    assert_eq!(mark(&s, "/r/c\r"), Some('M'));
}

#[test]
fn renamed_files_are_marked_under_the_new_name() {
    let s = statuses("R  old -> new\nR  a -> b -> c\nM  x -> y\n");
    assert_eq!(mark(&s, "/r/new"), Some('R'));
    assert_eq!(mark(&s, "/r/old"), None);
    assert_eq!(mark(&s, "/r/c"), Some('R'));
    assert_eq!(mark(&s, "/r/x -> y"), Some('M'));
}

#[test]
fn quotes_around_paths_are_dropped() {
    let s = statuses("?? \"a b\"\nR  \"o\" -> \"n n\"\n M \"\"q\"\"\n");
    assert_eq!(mark(&s, "/r/a b"), Some('?'));
    assert_eq!(mark(&s, "/r/n n"), Some('R'));
    assert_eq!(mark(&s, "/r/q"), Some('M'));
}

#[test]
fn marks_reach_the_directories_above() {
    let s = statuses("?? a/b/new\n M a/c/changed\n?? d/e/\nA  top\n");
    assert_eq!(mark(&s, "/r/a/b"), Some('?'));
    assert_eq!(mark(&s, "/r/a/c"), Some('M'));
    assert_eq!(mark(&s, "/r/a"), Some('M'));
    assert_eq!(mark(&s, "/r/d/e"), Some('?'));
    assert_eq!(mark(&s, "/r/d"), Some('?'));
    assert_eq!(mark(&s, "/r/top"), Some('A'));
    assert_eq!(mark(&s, "/r"), None);
    assert_eq!(mark(&s, "/"), None);
}

#[test]
fn a_directory_has_the_mark_of_what_is_in_it() {
    let s = statuses("A  a\nA  a/b\n?? c\n?? c/d\n");
    assert_eq!(mark(&s, "/r/a"), Some('M'));
    assert_eq!(mark(&s, "/r/a/b"), Some('A'));
    assert_eq!(mark(&s, "/r/c"), Some('?'));
}

#[test]
fn a_later_line_has_the_last_word() {
    let s = statuses(" M a\nA  a\n");
    assert_eq!(s.len(), 1);
    assert_eq!(mark(&s, "/r/a"), Some('A'));
}

#[test]
fn absolute_paths_outside_the_root_stay_outside() {
    let s = statuses(" M /x/y\n");
    assert_eq!(mark(&s, "/x/y"), Some('M'));
    assert_eq!(mark(&s, "/x"), None);
}

#[test]
fn invalid_bytes_are_replaced() {
    let output = b"?? a\xffb\n".to_vec();
    let s = TreeExplorer::get_git_statuses(&path("/r"), Some(&output)).unwrap();
    assert_eq!(mark(&s, "/r/a\u{fffd}b"), Some('?'));
}

#[test]
fn unreadable_output_comes_to_nothing() {
    // the path would have to begin inside of a character
    let output = "\u{e9}\u{e9}xx\n".as_bytes().to_vec();
    assert!(!status_divides("\u{e9}\u{e9}xx\n"));
    assert!(status_divides("\u{e9}M xx\n"));
    assert_eq!(mark(&statuses("\u{e9}M xx\n"), "/r/ xx"), Some('\u{e9}'));
    assert!(status_divides(" M a\n"));
    assert!(TreeExplorer::get_git_statuses(&path("/r"), Some(&output)).is_none());
    assert!(TreeExplorer::new(path("/r"), true, &Snapshot::new(), Some(&output)).is_none());
    let good = " M a\n".as_bytes().to_vec();
    let mut explorer = TreeExplorer::new(path("/r"), true, &Snapshot::new(), Some(&good)).unwrap();
    assert!(!explorer.refresh(&Snapshot::new(), Some(&output)));
    assert_eq!(mark(&explorer.git_statuses, "/r/a"), Some('M'));
    assert!(!explorer.refresh_after_delete(&Snapshot::new(), Some(&output)));
    assert!(explorer.refresh(&Snapshot::new(), None));
    assert_eq!(explorer.git_statuses.len(), 0);
}

#[test]
fn no_output_means_no_marks() {
    let s = TreeExplorer::get_git_statuses(&path("/r"), None).unwrap();
    assert_eq!(s.len(), 0);
}

#[test]
fn statuses_are_read_from_text() {
    let s = read_statuses(&path("r"), "?? sub/x\n");
    assert_eq!(mark(&s, "r/sub/x"), Some('?'));
    assert_eq!(mark(&s, "r/sub"), Some('?'));
    assert_eq!(mark(&s, "./r/sub"), None);
}

#[test]
fn keys_keep_the_bytes_of_the_first_line() {
    let s = statuses("?? docs/\n M docs/a\n M docs\n");
    assert_eq!(s.len(), 2);
    assert_eq!(s.entry(0).0.text(), &b"/r/docs/".to_vec());
    assert_eq!(s.entry(0).1, 'M');
    assert_eq!(s.entry(1).0.text(), &b"/r/docs/a".to_vec());
}

#[test]
fn order_of_lines_is_of_no_account() {
    let lines = ["?? a/b/x", " M a/y", "A  z", "?? c/d", "R  o -> c/n"];
    let forward = statuses(&lines.join("\n"));
    let mut turned = lines;
    turned.reverse();
    let backward = statuses(&turned.join("\n"));
    assert_eq!(forward.len(), backward.len());
    for i in 0..forward.len() {
        let entry = forward.entry(i);
        assert_eq!(backward.get(&entry.0), Some(&entry.1));
    }
}
