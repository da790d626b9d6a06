use tree_explorer::explorer::events::{Action, Command, Event, EventResult, KeyCode, KeyEvent};
use tree_explorer::explorer::TreeExplorer;
use tree_explorer::listing::{DirEntry, Snapshot};
use tree_explorer::node::{is_ignored, TreeNode};
use tree_explorer::order::{goes_before, sort_nodes};
use tree_explorer::path::TreePath;

fn path(text: &str) -> TreePath {
    TreePath::from_text(text)
}

fn text(path: &TreePath) -> String {
    String::from_utf8(path.text().clone()).unwrap()
}

/// Entries by name; a name that ends in a slash is that of a directory.
fn entries(names: &[&str]) -> Vec<DirEntry> {
    names
        .iter()
        .map(|n| match n.strip_suffix('/') {
            Some(dir) => DirEntry::new(dir.as_bytes().to_vec(), true).unwrap(),
            None => DirEntry::new(n.as_bytes().to_vec(), false).unwrap(),
        })
        .collect()
}

fn disk(dirs: &[(&str, &[&str])]) -> Snapshot {
    let mut snapshot = Snapshot::new();
    for (dir, names) in dirs {
        snapshot.record(path(dir), entries(names));
    }
    snapshot
}

fn project() -> Snapshot {
    disk(&[
        ("/p", &["b.txt", "src/", "A.md", ".git/", "docs/", "target/"]),
        ("/p/src", &["main.rs", "ui/", "lib.rs"]),
        ("/p/src/ui", &["mod.rs"]),
        ("/p/docs", &[]),
    ])
}

fn open(disk: &Snapshot) -> TreeExplorer {
    TreeExplorer::new(path("/p"), true, disk, None).unwrap()
}

fn key(c: char) -> Event {
    Event::Key(KeyEvent { code: KeyCode::Char(c), control: false })
}

fn control(c: char) -> Event {
    Event::Key(KeyEvent { code: KeyCode::Char(c), control: true })
}

fn press(explorer: &mut TreeExplorer, keys: &str, disk: &Snapshot) {
    for c in keys.chars() {
        assert!(matches!(explorer.handle_event(&key(c), disk), EventResult::Consumed(_)));
    }
}

/// What is shown: names, each after as many dots as it is deep.
fn shown(explorer: &TreeExplorer) -> Vec<String> {
    explorer
        .visible_items()
        .iter()
        .map(|n| format!("{}{}", ".".repeat(n.depth), n.name))
        .collect()
}

fn selected(explorer: &TreeExplorer) -> String {
    text(&explorer.selected().unwrap().path)
}

#[test]
fn names_of_entries_are_checked() {
    assert!(DirEntry::new(b"a".to_vec(), true).is_some());
    assert!(DirEntry::new(b"...".to_vec(), false).is_some());
    for name in ["", ".", "..", "a/b", "/"] {
        assert!(DirEntry::new(name.as_bytes().to_vec(), false).is_none());
    }
    let entry = DirEntry::new(b"a".to_vec(), true).unwrap();
    assert_eq!(entry.name(), &b"a".to_vec());
    assert_eq!(entry.shown_name(), "a");
    let broken = DirEntry::new(b"\xc3\xa9\xff".to_vec(), false).unwrap();
    assert_eq!(broken.shown_name(), "\u{e9}\u{fffd}");
    assert!(entry.is_dir());
}

#[test]
fn names_that_are_left_out() {
    for name in [".git", ".", "node_modules", "target", "__pycache__"] {
        assert!(is_ignored(name));
    }
    for name in ["", "git", "targets", "Target", "node_modules2"] {
        assert!(!is_ignored(name));
    }
}

#[test]
fn new_node_is_named_after_its_file() {
    let node = TreeNode::new(path("/p/a.rs"), false, 3);
    assert_eq!(node.name, "a.rs");
    assert_eq!(node.depth, 3);
    assert!(!node.expanded && !node.children_loaded && node.children.is_empty());
    assert_eq!(TreeNode::new(path("/"), true, 0).name, "/");
    assert_eq!(TreeNode::new(path("/p/.."), true, 0).name, "/p/..");
    let broken = TreeNode::new(TreePath::new(b"/p/a\xffb".to_vec()), false, 1);
    assert_eq!(broken.name, "a\u{fffd}b");
}

#[test]
fn siblings_are_sorted_directories_first() {
    let names = ["b", "C", "a", "\u{c4}", "B"];
    let mut nodes: Vec<TreeNode> = Vec::new();
    for name in names {
        nodes.push(TreeNode::new(path(name), false, 1));
    }
    nodes.push(TreeNode::new(path("z"), true, 1));
    nodes.push(TreeNode::new(path("Y"), true, 1));
    let sorted: Vec<String> = sort_nodes(nodes).iter().map(|n| n.name.clone()).collect();
    assert_eq!(sorted, ["Y", "z", "a", "b", "B", "C", "\u{c4}"]);
}

#[test]
fn siblings_go_by_kind_and_then_by_name() {
    let chars = |s: &str| -> Vec<char> { s.chars().collect() };
    let (a, ab, b) = (chars("a"), chars("ab"), chars("b"));
    assert!(goes_before(true, &b, false, &a));
    assert!(!goes_before(false, &a, true, &b));
    assert!(goes_before(false, &a, false, &ab));
    assert!(goes_before(true, &ab, true, &b));
    assert!(!goes_before(true, &b, true, &ab));
    assert!(!goes_before(false, &a, false, &a));
}

#[test]
fn opened_explorer_shows_the_root_and_its_entries() {
    let explorer = open(&project());
    assert_eq!(shown(&explorer), ["p", ".docs", ".src", ".A.md", ".b.txt"]);
    assert_eq!(explorer.cursor_index(), 0);
    assert_eq!(explorer.scroll_offset(), 0);
    assert!(explorer.focused);
    assert!(explorer.root().expanded && explorer.root().children_loaded);
    assert_eq!(explorer.git_statuses.len(), 0);
    assert_eq!(explorer.id(), Some("tree-explorer"));
}

#[test]
fn unreadable_root_shows_nothing_below() {
    let explorer = open(&Snapshot::new());
    assert_eq!(shown(&explorer), ["p"]);
    assert!(explorer.root().expanded && explorer.root().children_loaded);
    let file = TreeExplorer::new(path("/p"), false, &project(), None).unwrap();
    assert_eq!(shown(&file), ["p"]);
    assert!(file.root().expanded && !file.root().children_loaded);
}

#[test]
fn nothing_is_asked_of_depths_where_nothing_is_read() {
    let mut file = TreeNode::new(path("a"), false, usize::MAX);
    file.toggle(&Snapshot::new());
    file.load_children(&Snapshot::new());
    assert!(!file.expanded && !file.children_loaded);
    let mut dir = TreeNode::new(path("a"), true, usize::MAX);
    dir.expanded = true;
    dir.toggle(&Snapshot::new());
    assert!(!dir.expanded);
}

#[test]
fn cursor_stays_on_an_item_after_any_key() {
    let disk = project();
    let mut explorer = open(&disk);
    for c in "Gkkllhhjljljlhhhhghlgl".chars() {
        press(&mut explorer, &c.to_string(), &disk);
        assert!(explorer.selected().is_some());
        let flags = TreeExplorer::get_is_last_map(explorer.root());
        let items = explorer.visible_items();
        assert_eq!(flags.len(), items.len());
        assert!(flags.iter().zip(items.iter()).all(|(f, n)| f.0.same(&n.path)));
    }
}

#[test]
fn load_children_reads_once() {
    let mut node = TreeNode::new(path("/p/src"), true, 1);
    node.load_children(&project());
    assert_eq!(node.children.len(), 3);
    assert_eq!(node.children[0].depth, 2);
    node.load_children(&disk(&[("/p/src", &["other"])]));
    assert_eq!(node.children.len(), 3);
    let mut file = TreeNode::new(path("/p/src"), false, 1);
    file.load_children(&project());
    assert!(!file.children_loaded);
}

#[test]
fn toggling_twice_shows_the_same() {
    let disk = project();
    let mut explorer = open(&disk);
    press(&mut explorer, "jjl", &disk);
    let expanded = ["p", ".docs", ".src", "..ui", "..lib.rs", "..main.rs", ".A.md", ".b.txt"];
    assert_eq!(shown(&explorer), expanded);
    assert_eq!(selected(&explorer), "/p/src");
    press(&mut explorer, "l", &Snapshot::new());
    assert_eq!(shown(&explorer), ["p", ".docs", ".src", ".A.md", ".b.txt"]);
    assert_eq!(selected(&explorer), "/p/src");
    press(&mut explorer, "l", &Snapshot::new());
    assert_eq!(shown(&explorer), expanded);
}

#[test]
fn toggle_node_at_path_finds_shown_nodes_only() {
    let disk = project();
    let mut explorer = open(&disk);
    explorer.toggle_node_at_path(&path("/p/src/ui"), &disk);
    assert_eq!(shown(&explorer).len(), 5);
    explorer.toggle_node_at_path(&path("/p//src/"), &disk);
    explorer.toggle_node_at_path(&path("/p/src/ui"), &disk);
    assert_eq!(shown(&explorer).len(), 9);
    let mut node = TreeNode::new(path("/p"), true, 0);
    assert!(!TreeExplorer::toggle_recursive(&mut node, &path("/q"), &disk));
    assert!(TreeExplorer::toggle_recursive(&mut node, &path("/p"), &disk));
    assert!(node.expanded);
}

#[test]
fn keys_ask_for_commands() {
    let of = |code, control| KeyEvent { code, control }.command();
    assert_eq!(of(KeyCode::Esc, false), Command::Close);
    assert_eq!(of(KeyCode::Char('q'), false), Command::Close);
    assert_eq!(of(KeyCode::Down, false), Command::Move(1));
    assert_eq!(of(KeyCode::Char('k'), false), Command::Move(-1));
    assert_eq!(of(KeyCode::Char('d'), true), Command::Move(15));
    assert_eq!(of(KeyCode::Char('u'), true), Command::Move(-15));
    assert_eq!(of(KeyCode::Char('u'), false), Command::Nothing);
    assert_eq!(of(KeyCode::Char('d'), false), Command::Delete);
    assert_eq!(of(KeyCode::Char('g'), false), Command::Top);
    assert_eq!(of(KeyCode::Char('G'), false), Command::Bottom);
    assert_eq!(of(KeyCode::Enter, false), Command::Activate);
    assert_eq!(of(KeyCode::Right, false), Command::Activate);
    assert_eq!(of(KeyCode::Left, false), Command::Ascend);
    assert_eq!(of(KeyCode::Char('a'), false), Command::Create);
    assert_eq!(of(KeyCode::Char('r'), false), Command::Rename);
    assert_eq!(of(KeyCode::Other, false), Command::Nothing);
}

#[test]
fn cursor_moves_within_the_items() {
    let disk = project();
    let mut explorer = open(&disk);
    press(&mut explorer, "k", &disk);
    assert_eq!(explorer.cursor_index(), 0);
    press(&mut explorer, "jj", &disk);
    assert_eq!(explorer.cursor_index(), 2);
    press(&mut explorer, "k", &disk);
    assert_eq!(explorer.cursor_index(), 1);
    explorer.handle_event(&control('d'), &disk);
    assert_eq!(explorer.cursor_index(), 4);
    explorer.handle_event(&control('u'), &disk);
    assert_eq!(explorer.cursor_index(), 0);
    press(&mut explorer, "G", &disk);
    assert_eq!(explorer.cursor_index(), 4);
    press(&mut explorer, "g", &disk);
    assert_eq!(explorer.cursor_index(), 0);
}

#[test]
fn moving_keeps_the_cursor_in_view() {
    let names: Vec<String> = (0..60).map(|i| format!("f{:02}", i)).collect();
    let names: Vec<&str> = names.iter().map(|n| n.as_str()).collect();
    let disk = disk(&[("/p", &names)]);
    let mut explorer = open(&disk);
    explorer.move_cursor(30, 12);
    assert_eq!((explorer.cursor_index(), explorer.scroll_offset()), (30, 21));
    explorer.move_cursor(-5, 12);
    assert_eq!((explorer.cursor_index(), explorer.scroll_offset()), (25, 21));
    explorer.move_cursor(-10, 12);
    assert_eq!((explorer.cursor_index(), explorer.scroll_offset()), (15, 15));
    explorer.move_cursor(i32::MAX, 3);
    assert_eq!((explorer.cursor_index(), explorer.scroll_offset()), (60, 60));
    explorer.move_cursor(i32::MIN, 2);
    assert_eq!((explorer.cursor_index(), explorer.scroll_offset()), (0, 0));
}

#[test]
fn going_up_collapses_or_goes_to_the_parent() {
    let disk = project();
    let mut explorer = open(&disk);
    press(&mut explorer, "jjljljj", &disk);
    assert_eq!(selected(&explorer), "/p/src/lib.rs");
    press(&mut explorer, "h", &disk);
    assert_eq!(selected(&explorer), "/p/src");
    assert_eq!(explorer.cursor_index(), 2);
    press(&mut explorer, "h", &disk);
    assert_eq!(selected(&explorer), "/p/src");
    assert!(!explorer.selected().unwrap().expanded);
    press(&mut explorer, "h", &disk);
    assert_eq!(selected(&explorer), "/p");
    press(&mut explorer, "h", &disk);
    assert_eq!(shown(&explorer), ["p"]);
    press(&mut explorer, "h", &disk);
    assert_eq!(shown(&explorer), ["p"]);
    press(&mut explorer, "l", &disk);
    assert_eq!(shown(&explorer), ["p", ".docs", ".src", ".A.md", ".b.txt"]);
    press(&mut explorer, "jjl", &disk);
    assert_eq!(shown(&explorer)[3..6], ["..ui", "...mod.rs", "..lib.rs"]);
}

#[test]
fn only_directories_not_yet_read_are_wanted() {
    let disk = project();
    let mut explorer = open(&disk);
    assert!(explorer.listing_wanted(&key('l')).is_none());
    press(&mut explorer, "jj", &disk);
    assert_eq!(text(&explorer.listing_wanted(&key('l')).unwrap()), "/p/src");
    assert!(explorer.listing_wanted(&key('h')).is_none());
    assert!(explorer.listing_wanted(&key('j')).is_none());
    assert!(explorer.listing_wanted(&Event::Other).is_none());
    press(&mut explorer, "ll", &disk);
    assert!(explorer.listing_wanted(&key('l')).is_none());
    press(&mut explorer, "j", &disk);
    assert!(explorer.listing_wanted(&key('l')).is_none());
    explorer.focused = false;
    press_none(&mut explorer, &disk);
}

fn press_none(explorer: &mut TreeExplorer, disk: &Snapshot) {
    let before = (shown(explorer), explorer.cursor_index(), explorer.scroll_offset());
    for c in "jkgGlhadrqx".chars() {
        assert!(explorer.listing_wanted(&key(c)).is_none());
        assert!(matches!(explorer.handle_event(&key(c), disk), EventResult::Ignored));
    }
    assert!(matches!(explorer.handle_event(&Event::Other, disk), EventResult::Ignored));
    let after = (shown(explorer), explorer.cursor_index(), explorer.scroll_offset());
    assert_eq!(before, after);
}

#[test]
fn without_focus_every_event_is_ignored() {
    let disk = project();
    let mut explorer = open(&disk);
    press(&mut explorer, "jj", &disk);
    explorer.set_focused(false);
    press_none(&mut explorer, &disk);
    explorer.set_focused(true);
    assert!(matches!(explorer.handle_event(&Event::Other, &disk), EventResult::Consumed(None)));
    assert!(matches!(explorer.handle_event(&key('x'), &disk), EventResult::Consumed(None)));
}

#[test]
fn actions_name_what_is_selected() {
    let disk = project();
    let mut explorer = open(&disk);
    let act = |explorer: &mut TreeExplorer, c| match explorer.handle_event(&key(c), &disk) {
        EventResult::Consumed(action) => action,
        EventResult::Ignored => panic!("ignored"),
    };
    assert!(matches!(act(&mut explorer, 'q'), Some(Action::Close { .. })));
    assert!(matches!(act(&mut explorer, 'a'), Some(Action::Create { base_dir }) if text(&base_dir) == "/p"));
    press(&mut explorer, "G", &disk);
    assert!(matches!(act(&mut explorer, 'l'), Some(Action::Open(file)) if text(&file) == "/p/b.txt"));
    assert!(matches!(act(&mut explorer, 'a'), Some(Action::Create { base_dir }) if text(&base_dir) == "/p"));
    match act(&mut explorer, 'd') {
        Some(Action::Delete { path, is_dir, name }) => {
            assert_eq!((text(&path), is_dir, name), ("/p/b.txt".to_string(), false, "b.txt".to_string()));
        }
        _ => panic!("no deletion"),
    }
    match act(&mut explorer, 'r') {
        Some(Action::Rename { path, name }) => {
            assert_eq!((text(&path), name), ("/p/b.txt".to_string(), "b.txt".to_string()));
        }
        _ => panic!("no renaming"),
    }
}

#[test]
fn closing_goes_by_the_name_of_the_explorer() {
    let disk = project();
    let mut explorer = open(&disk);
    for code in [KeyCode::Esc, KeyCode::Char('q')] {
        let event = Event::Key(KeyEvent { code, control: false });
        match explorer.handle_event(&event, &disk) {
            EventResult::Consumed(Some(Action::Close { id })) => {
                assert_eq!(id, "tree-explorer");
                assert_eq!(explorer.id(), Some(id));
            }
            _ => panic!("not closed"),
        }
        press(&mut explorer, "jl", &disk);
    }
}

#[test]
fn refresh_keeps_what_is_expanded() {
    let disk0 = project();
    let mut explorer = open(&disk0);
    press(&mut explorer, "jjljl", &disk0);
    assert_eq!(shown(&explorer).len(), 9);
    let read: Vec<String> = explorer.dirs_to_read().iter().map(text).collect();
    assert_eq!(read, ["/p", "/p/src", "/p/src/ui"]);
    let disk1 = disk(&[
        ("/p", &["src/", "new/", "b.txt"]),
        ("/p/src", &["ui/", "main.rs"]),
        ("/p/src/ui", &["mod.rs", "tree.rs"]),
    ]);
    assert!(explorer.refresh(&disk1, None));
    let after = ["p", ".new", ".src", "..ui", "...mod.rs", "...tree.rs", "..main.rs", ".b.txt"];
    assert_eq!(shown(&explorer), after);
    assert!(explorer.refresh(&disk1, None));
    assert_eq!(shown(&explorer), after);
    assert_eq!(explorer.cursor_index(), 3);
}

#[test]
fn refresh_keeps_what_cannot_be_read() {
    let disk0 = project();
    let mut explorer = open(&disk0);
    press(&mut explorer, "jjl", &disk0);
    let before = shown(&explorer);
    assert!(explorer.refresh(&Snapshot::new(), None));
    assert_eq!(shown(&explorer), before);
    assert!(explorer.refresh(&disk(&[("/p", &["src/"])]), None));
    assert_eq!(shown(&explorer), ["p", ".src", "..ui", "..lib.rs", "..main.rs"]);
}

#[test]
fn refresh_node_leaves_unread_directories() {
    let mut node = TreeNode::new(path("/p"), true, 0);
    TreeExplorer::refresh_node(&mut node, &project());
    assert!(!node.children_loaded && node.children.is_empty());
    node.load_children(&disk(&[("/p", &["old"])]));
    TreeExplorer::refresh_node(&mut node, &project());
    let names: Vec<&str> = node.children.iter().map(|n| n.name.as_str()).collect();
    assert_eq!(names, ["docs", "src", "A.md", "b.txt"]);
}

#[test]
fn file_in_place_of_an_expanded_directory_keeps_its_children() {
    let disk0 = project();
    let mut explorer = open(&disk0);
    press(&mut explorer, "jjl", &disk0);
    assert!(explorer.refresh(&disk(&[("/p", &["src"]), ("/p/src", &["x"])]), None));
    assert_eq!(shown(&explorer), ["p", ".src", "..ui", "..lib.rs", "..main.rs"]);
    assert!(!explorer.root().children[0].is_dir);
}

#[test]
fn refresh_after_delete_sets_the_cursor_right() {
    let disk0 = project();
    let mut explorer = open(&disk0);
    press(&mut explorer, "G", &disk0);
    let disk1 = disk(&[("/p", &["src/", "docs/"])]);
    let mut plain = open(&disk0);
    press(&mut plain, "G", &disk0);
    assert!(plain.refresh(&disk1, None));
    assert_eq!(plain.cursor_index(), 4);
    assert!(plain.selected().is_none());
    assert!(explorer.refresh_after_delete(&disk1, None));
    assert_eq!(explorer.cursor_index(), 2);
    assert_eq!(selected(&explorer), "/p/src");
    assert!(explorer.refresh_after_delete(&disk0, None));
    assert_eq!(explorer.cursor_index(), 2);
}

#[test]
fn last_of_siblings_is_flagged() {
    let disk = project();
    let mut explorer = open(&disk);
    press(&mut explorer, "jjl", &disk);
    let flags: Vec<(String, bool)> = TreeExplorer::get_is_last_map(explorer.root())
        .iter()
        .map(|f| (text(&f.0), f.1))
        .collect();
    let expected = [
        ("/p", true),
        ("/p/docs", false),
        ("/p/src", false),
        ("/p/src/ui", false),
        ("/p/src/lib.rs", false),
        ("/p/src/main.rs", true),
        ("/p/A.md", false),
        ("/p/b.txt", true),
    ];
    assert_eq!(flags.len(), expected.len());
    for (flag, want) in flags.iter().zip(expected.iter()) {
        assert_eq!((flag.0.as_str(), flag.1), *want);
    }
}

#[test]
fn clones_are_independent() {
    let explorer = open(&project());
    let mut copy = explorer.root().clone();
    copy.children.clear();
    assert_eq!(explorer.root().children.len(), 4);
    assert_eq!(explorer.root().clone().flatten().len(), 5);
}
