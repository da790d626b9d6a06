use tree_explorer::explorer::events::{Event, KeyCode, KeyEvent};
use tree_explorer::explorer::render::{Color, CursorKind, Rect, Row, Scope, Style};
use tree_explorer::explorer::TreeExplorer;
use tree_explorer::listing::{DirEntry, Snapshot};
use tree_explorer::node::TreeNode;
use tree_explorer::path::TreePath;
use tree_explorer::width::char_widths;

fn path(text: &str) -> TreePath {
    TreePath::from_text(text)
}

fn disk(dirs: &[(&str, &[&str])]) -> Snapshot {
    let mut snapshot = Snapshot::new();
    for (dir, names) in dirs {
        let entries = names
            .iter()
            .map(|n| match n.strip_suffix('/') {
                Some(d) => DirEntry::new(d.as_bytes().to_vec(), true).unwrap(),
                None => DirEntry::new(n.as_bytes().to_vec(), false).unwrap(),
            })
            .collect();
        snapshot.record(path(dir), entries);
    }
    snapshot
}

fn press(explorer: &mut TreeExplorer, keys: &str, disk: &Snapshot) {
    for c in keys.chars() {
        let event = Event::Key(KeyEvent { code: KeyCode::Char(c), control: false });
        explorer.handle_event(&event, disk);
    }
}

fn line(row: &Row) -> String {
    row.cells.iter().map(|c| c.symbol).collect()
}

fn area(width: u16, height: u16) -> Rect {
    Rect { x: 3, y: 5, width, height }
}

fn many(n: usize) -> (Snapshot, TreeExplorer) {
    let names: Vec<String> = (0..n).map(|i| format!("f{:02}", i)).collect();
    let names: Vec<&str> = names.iter().map(|s| s.as_str()).collect();
    let disk = disk(&[("/p", &names)]);
    let explorer = TreeExplorer::new(path("/p"), true, &disk, None).unwrap();
    (disk, explorer)
}

#[test]
fn icons_go_by_kind_and_extension() {
    let icon = |name: &str| TreeNode::new(path(name), false, 1).icon().to_string();
    assert_eq!(icon("/a.rs"), "\u{f1617} ");
    assert_eq!(icon("/a.js"), "\u{f031e} ");
    assert_eq!(icon("/a.jsx"), "\u{f031e} ");
    assert_eq!(icon("/a.go"), "\u{f07d3} ");
    assert_eq!(icon("/a.txt"), "\u{f0219} ");
    let blank = [
        "toml", "md", "json", "yaml", "yml", "ts", "tsx", "py", "lua", "sh", "bash", "zsh", "lock",
        "gitignore",
    ];
    for known in blank {
        assert_eq!(icon(&format!("/a.{}", known)), " ");
    }
    for other in ["/a", "/a.RS", "/.gitignore", "/a.", "/a.rs2"] {
        assert_eq!(icon(other), "\u{f0214} ");
    }
    let broken = TreeNode::new(TreePath::new(b"/a.\xff".to_vec()), false, 1);
    assert_eq!(broken.icon(), "\u{f0214} ");
    let mut dir = TreeNode::new(path("/a.rs"), true, 1);
    assert_eq!(dir.icon(), "\u{f024b} ");
    dir.expanded = true;
    assert_eq!(dir.icon(), "\u{f0770} ");
}

#[test]
fn widths_of_characters() {
    let text: Vec<char> = vec!['a', '\u{2502}', '\u{4e2d}', '\u{301}', '\t', '\u{7f}', '\u{f0214}'];
    let widths = char_widths(&text);
    assert_eq!(widths, vec![Some(1), Some(1), Some(2), Some(0), None, None, Some(1)]);
}

#[test]
fn rows_show_guides_icons_names_and_marks() {
    let d = disk(&[
        ("/p", &["src/", "a.txt"]),
        ("/p/src", &["ui/", "lib.rs"]),
        ("/p/src/ui", &["mod.rs"]),
    ]);
    let output = " M src/lib.rs\n?? src/ui/mod.rs\n".as_bytes().to_vec();
    let mut explorer = TreeExplorer::new(path("/p"), true, &d, Some(&output)).unwrap();
    press(&mut explorer, "jljl", &d);
    let rows = explorer.render(area(40, 10));
    let lines: Vec<String> = rows.iter().map(line).collect();
    assert_eq!(
        lines,
        [
            "\u{f0770} p",
            "\u{251c}\u{2500} \u{f0770} src [M]",
            "\u{2502} \u{251c}\u{2500} \u{f0770} ui [?]",
            "\u{2502} \u{2502} \u{2570}\u{2500} \u{f1617} mod.rs [?]",
            "\u{2502} \u{2570}\u{2500} \u{f1617} lib.rs [M]",
            "\u{2570}\u{2500} \u{f0219} a.txt",
        ]
    );
    let ys: Vec<u16> = rows.iter().map(|r| r.y).collect();
    assert_eq!(ys, [5, 6, 7, 8, 9, 10]);
    let filled: Vec<bool> = rows.iter().map(|r| r.fill).collect();
    assert_eq!(filled, [false, false, true, false, false, false]);
    let text = |fg| Style { scope: Scope::Text, fg };
    assert_eq!(rows[0].style, text(Some(Color::Cyan)));
    assert_eq!(rows[1].style, text(Some(Color::Yellow)));
    assert_eq!(rows[2].style, Style { scope: Scope::MenuSelected, fg: None });
    assert_eq!(rows[3].style, text(Some(Color::Indexed(8))));
    assert_eq!(rows[4].style, text(Some(Color::Yellow)));
    assert_eq!(rows[5].style, text(None));
    assert_eq!(explorer.mark_for(&path("/p/src/ui")), Some('?'));
    explorer.focused = false;
    let rows = explorer.render(area(40, 10));
    assert_eq!(rows[2].style, Style { scope: Scope::StatuslineInactive, fg: None });
}

#[test]
fn colours_of_the_other_marks() {
    let d = disk(&[("/p", &["a", "d/", "r", "x"])]);
    let output = "A  a\nD  x\nR  q -> r\n".as_bytes().to_vec();
    let mut explorer = TreeExplorer::new(path("/p"), true, &d, Some(&output)).unwrap();
    let rows = explorer.render(area(40, 10));
    let colours: Vec<Option<Color>> = rows.iter().skip(1).map(|r| r.style.fg).collect();
    assert_eq!(colours, [Some(Color::Cyan), Some(Color::Green), Some(Color::Cyan), None]);
}

#[test]
fn scopes_have_their_keys() {
    assert_eq!(Scope::Text.key(), "ui.text");
    assert_eq!(Scope::MenuSelected.key(), "ui.menu.selected");
    assert_eq!(Scope::StatuslineInactive.key(), "ui.statusline.inactive");
}

#[test]
fn rows_are_cut_before_the_border() {
    let d = disk(&[("/p", &["ab\u{4e2d}c", "\u{65e5}\u{301}x"])]);
    let mut explorer = TreeExplorer::new(path("/p"), true, &d, None).unwrap();
    // a guide of three columns, an icon of two, and then the name
    let rows = explorer.render(area(10, 10));
    assert_eq!(line(&rows[1]), "\u{251c}\u{2500} \u{f0214} ab\u{4e2d}");
    let rows = explorer.render(area(9, 10));
    assert_eq!(line(&rows[1]), "\u{251c}\u{2500} \u{f0214} ab");
    let last: Vec<u16> = rows[2].cells.iter().map(|c| c.column).collect();
    assert_eq!(last, [3, 4, 5, 6, 7, 8, 10, 10]);
    assert_eq!(rows[2].cells[6].symbol, '\u{301}');
    for row in &rows {
        assert!(row.cells.iter().all(|c| 3 <= c.column && c.column < 11));
    }
}

#[test]
fn no_room_draws_nothing() {
    let (_, mut explorer) = many(5);
    explorer.move_cursor(3, 3);
    let before = explorer.scroll_offset();
    assert_eq!(explorer.render(area(1, 10)).len(), 0);
    assert_eq!(explorer.render(area(0, 10)).len(), 0);
    assert_eq!(explorer.render(area(10, 0)).len(), 0);
    assert_eq!(explorer.scroll_offset(), before);
    assert_eq!(explorer.render(area(2, 1)).len(), 1);
}

#[test]
fn drawing_scrolls_to_the_cursor_and_back() {
    let (_, mut explorer) = many(20);
    assert_eq!(explorer.render(area(20, 8)).len(), 8);
    assert_eq!(explorer.scroll_offset(), 0);
    explorer.move_cursor(12, 40);
    let rows = explorer.render(area(20, 8));
    assert_eq!(explorer.scroll_offset(), 5);
    assert!(rows[7].fill && rows.iter().filter(|r| r.fill).count() == 1);
    explorer.move_cursor(100, 40);
    explorer.render(area(20, 8));
    assert_eq!(explorer.scroll_offset(), 13);
    let rows = explorer.render(area(20, 30));
    assert_eq!((rows.len(), explorer.scroll_offset()), (21, 0));
    let again = explorer.render(area(20, 30));
    assert_eq!((again.len(), explorer.scroll_offset()), (21, 0));
}

#[test]
fn drawing_twice_is_drawing_once_behind_the_items_too() {
    let (_, mut explorer) = many(20);
    explorer.move_cursor(20, 40);
    assert!(explorer.refresh(&disk(&[("/p", &["a", "b", "c"])]), None));
    assert_eq!(explorer.cursor_index(), 20);
    let rows = explorer.render(area(20, 3));
    assert_eq!((rows.len(), explorer.scroll_offset()), (3, 1));
    assert!(rows.iter().all(|r| !r.fill));
    explorer.render(area(20, 3));
    assert_eq!(explorer.scroll_offset(), 1);
}

#[test]
fn last_rows_and_columns_of_the_screen() {
    let (_, mut explorer) = many(3);
    let corner = Rect { x: 65535 - 19, y: 65535 - 3, width: 20, height: 4 };
    let rows = explorer.render(corner);
    assert_eq!(rows[3].y, 65535);
    assert_eq!(rows[0].cells[0].column, 65516);
}

#[test]
fn terminal_cursor_is_hidden() {
    let (_, explorer) = many(1);
    assert_eq!(explorer.cursor(area(10, 10)), (None, CursorKind::Hidden));
}
