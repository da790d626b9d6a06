use tree_explorer::explorer::events::Action;
use tree_explorer::explorer::prompts::{
    create_request, delete_request, outcome_of, rename_request, CreateRequest, DeleteRequest, Outcome,
    PromptEvent,
};
use tree_explorer::path::TreePath;

fn path(text: &str) -> TreePath {
    TreePath::from_text(text)
}

fn text(path: &TreePath) -> String {
    String::from_utf8(path.text().clone()).unwrap()
}

#[test]
fn questions_name_the_file() {
    let create = Action::Create { base_dir: path("/p") };
    assert_eq!(create.question().unwrap(), "create: ");
    let delete = Action::Delete { path: path("/p/a"), is_dir: false, name: "a".to_string() };
    assert_eq!(delete.question().unwrap(), "delete a? (y/n): ");
    let rename = Action::Rename { path: path("/p/a"), name: "a".to_string() };
    assert_eq!(rename.question().unwrap(), "rename a to: ");
    assert!(Action::Close { id: "tree-explorer" }.question().is_none());
    assert!(Action::Open(path("/p/a")).question().is_none());
}

#[test]
fn answers_ask_for_files_or_directories() {
    match create_request(&path("/p"), "a/b.rs", &PromptEvent::Validate) {
        Some(CreateRequest::File { path, parent }) => {
            assert_eq!(text(&path), "/p/a/b.rs");
            assert_eq!(text(&parent.unwrap()), "/p/a");
        }
        _ => panic!("no file"),
    }
    match create_request(&path("/p"), "a/b/", &PromptEvent::Validate) {
        Some(CreateRequest::Directory(path)) => assert_eq!(text(&path), "/p/a/b/"),
        _ => panic!("no directory"),
    }
    match create_request(&path(""), "a", &PromptEvent::Validate) {
        Some(CreateRequest::File { path, parent }) => {
            assert_eq!((text(&path), text(&parent.unwrap())), ("a".to_string(), "".to_string()));
        }
        _ => panic!("no file"),
    }
}

#[test]
fn nothing_is_created_before_it_is_confirmed() {
    assert!(create_request(&path("/p"), "a", &PromptEvent::Update).is_none());
    assert!(create_request(&path("/p"), "a", &PromptEvent::Abort).is_none());
    assert!(create_request(&path("/p"), "", &PromptEvent::Validate).is_none());
}

#[test]
fn only_a_confirmed_yes_deletes() {
    let p = path("/p/a");
    for yes in ["y", "yes"] {
        assert!(matches!(
            delete_request(&p, true, yes, &PromptEvent::Validate),
            Some(DeleteRequest::Directory(q)) if text(&q) == "/p/a"
        ));
        assert!(matches!(
            delete_request(&p, false, yes, &PromptEvent::Validate),
            Some(DeleteRequest::File(q)) if text(&q) == "/p/a"
        ));
        assert!(delete_request(&p, false, yes, &PromptEvent::Update).is_none());
    }
    for no in ["", "n", "Y", "yes ", "ye"] {
        assert!(delete_request(&p, true, no, &PromptEvent::Validate).is_none());
    }
}

#[test]
fn renaming_stays_next_to_the_file() {
    let request = rename_request(&path("/p/a"), "b", &PromptEvent::Validate).unwrap();
    assert_eq!((text(&request.from), text(&request.to)), ("/p/a".to_string(), "/p/b".to_string()));
    let moved = rename_request(&path("/p/a"), "../c", &PromptEvent::Validate).unwrap();
    assert_eq!(text(&moved.to), "/p/../c");
    assert!(rename_request(&path("/p/a"), "", &PromptEvent::Validate).is_none());
    assert!(rename_request(&path("/p/a"), "b", &PromptEvent::Abort).is_none());
    assert!(rename_request(&path("/"), "b", &PromptEvent::Validate).is_none());
}

#[test]
fn changed_files_are_followed_by_a_refresh() {
    let create = Action::Create { base_dir: path("/p") };
    let delete = Action::Delete { path: path("/p/a"), is_dir: false, name: "a".to_string() };
    let rename = Action::Rename { path: path("/p/a"), name: "a".to_string() };
    assert!(matches!(outcome_of(&create, None), Some(Outcome::Refresh)));
    assert!(matches!(outcome_of(&delete, None), Some(Outcome::RefreshAndClamp)));
    assert!(matches!(outcome_of(&rename, None), Some(Outcome::Refresh)));
    let report = |action: &Action| match outcome_of(action, Some("no space")) {
        Some(Outcome::Report(message)) => message,
        _ => panic!("no report"),
    };
    assert_eq!(report(&create), "Create failed: no space");
    assert_eq!(report(&delete), "Delete failed: no space");
    assert_eq!(report(&rename), "Rename failed: no space");
    let close = Action::Close { id: "tree-explorer" };
    assert!(outcome_of(&close, None).is_none());
    assert!(outcome_of(&Action::Open(path("/p/a")), Some("gone")).is_none());
}
