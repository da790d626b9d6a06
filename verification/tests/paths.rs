use tree_explorer::path::{Component, TreePath};
use tree_explorer::path_map::PathMap;

fn path(text: &str) -> TreePath {
    TreePath::from_text(text)
}

fn text(path: &TreePath) -> String {
    String::from_utf8(path.text().clone()).unwrap()
}

fn parent(p: &str) -> Option<String> {
    path(p).parent().map(|q| text(&q))
}

#[test]
fn paths_are_the_same_by_their_components() {
    assert!(path("/a/b").same(&path("/a//b/")));
    assert!(path("/a/./b").same(&path("/a/b")));
    assert!(path("a/b/.").same(&path("a/b")));
    assert!(!path("./a").same(&path("a")));
    assert!(!path("/a").same(&path("a")));
    assert!(!path("/a/../b").same(&path("/b")));
    assert!(path("").same(&path("")));
    assert!(!path("").same(&path(".")));
}

#[test]
fn components_are_told_apart() {
    let p = path("./a/../b/./c");
    let all = p.components();
    assert_eq!(all.len(), 5);
    assert!(matches!(all[0], Component::Current));
    assert!(matches!(&all[1], Component::Normal(n) if n == b"a"));
    assert!(matches!(all[2], Component::Parent));
    assert!(matches!(&all[4], Component::Normal(n) if n == b"c"));
    let q = path("//");
    assert_eq!(q.components().len(), 1);
    assert!(matches!(q.components()[0], Component::Root));
}

#[test]
fn parents_drop_the_final_component() {
    assert_eq!(parent("/a/b"), Some("/a".to_string()));
    assert_eq!(parent("/a//b/"), Some("/a".to_string()));
    assert_eq!(parent("/a"), Some("/".to_string()));
    assert_eq!(parent("/"), None);
    assert_eq!(parent(""), None);
    assert_eq!(parent("a"), Some("".to_string()));
    assert_eq!(parent("a/."), Some("".to_string()));
    assert_eq!(parent("a/.."), Some("a".to_string()));
}

#[test]
fn joining_puts_one_separator_between() {
    assert_eq!(text(&path("/a").join(&b"b".to_vec())), "/a/b");
    assert_eq!(text(&path("/a/").join(&b"b".to_vec())), "/a/b");
    assert_eq!(text(&path("").join(&b"b".to_vec())), "b");
    assert_eq!(text(&path("/a").join(&b"/b".to_vec())), "/b");
    assert_eq!(text(&path("/a").join(&b"".to_vec())), "/a/");
}

#[test]
fn an_entry_is_in_its_directory() {
    for dir in ["/a/b", "/", "", ".", "..", "a//b/"] {
        let entry = path(dir).join(&b"x.rs".to_vec());
        assert!(entry.parent().unwrap().same(&path(dir)));
        assert_eq!(entry.file_name().unwrap(), &b"x.rs".to_vec());
        assert!(entry.starts_with(&path(dir)));
    }
}

#[test]
fn file_names_and_extensions() {
    assert_eq!(path("/a/b.tar.gz").file_name(), Some(&b"b.tar.gz".to_vec()));
    assert_eq!(path("/a/b.tar.gz").extension(), Some(b"gz".to_vec()));
    assert_eq!(path("/a/b.").extension(), Some(b"".to_vec()));
    assert_eq!(path("/a/.gitignore").extension(), None);
    assert_eq!(path("/a/b").extension(), None);
    assert_eq!(path("/a/..").file_name(), None);
    assert_eq!(path("/").file_name(), None);
    assert_eq!(path("/a/..").extension(), None);
}

#[test]
fn starts_with_goes_by_components() {
    assert!(path("/a/b/c").starts_with(&path("/a/b")));
    assert!(path("/a/b").starts_with(&path("/a/b/")));
    assert!(!path("/a/bc").starts_with(&path("/a/b")));
    assert!(!path("/a").starts_with(&path("/a/b")));
}

#[test]
fn maps_find_paths_by_their_components() {
    let mut map: PathMap<char> = PathMap::new();
    map.insert(path("/a/b"), 'x');
    map.insert(path("/a/c"), 'y');
    map.insert(path("/a//b/"), 'z');
    assert_eq!(map.len(), 2);
    assert_eq!(map.get(&path("/a/./b")), Some(&'z'));
    assert_eq!(map.get(&path("/a/c")), Some(&'y'));
    assert_eq!(map.get(&path("/a/d")), None);
    assert_eq!(map.entry(1).1, 'y');
    assert_eq!(text(&map.entry(0).0), "/a/b");
}

#[test]
fn very_long_paths_are_taken_apart() {
    let long = path(&"a/".repeat(200_000));
    assert_eq!(long.components().len(), 200_000);
    assert!(path(&"/".repeat(200_000)).same(&path("/")));
    assert_eq!(path("//a//./b//").components().len(), 3);
}
