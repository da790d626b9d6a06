//! What each key does and asks for, key by key.

use vstd::prelude::*;

use super::events::{explorer_id, ActionView, Event, KeyCode, KeyEvent, ResultView};
use super::laws::{
    ascend_collapses, ascend_selected, lemma_flat_all_collapsed, lemma_parent_shown,
    toggle_selected,
};
use super::ExplorerView;
use crate::distinct::{apart, apart_once};
use crate::listing::Disk;
use crate::path::{components_of, parent_drops_last, parent_of, same_path, Step};

use crate::shape::lemma_listed_from;
use crate::shown::{line_of, lines, Line};
use crate::spelling::parent_of_root;
use crate::tree::{flat, flat_all, listed, toggled};

verus! {

/// Whether a key opens a file and toggles a directory.
pub open spec fn activates(key: KeyEvent) -> bool {
    key.code == KeyCode::Enter || key.code == KeyCode::Right || key.code == KeyCode::Char('l')
}

/// Whether a key collapses a directory or goes to the one above.
pub open spec fn ascends(key: KeyEvent) -> bool {
    key.code == KeyCode::Left || key.code == KeyCode::Char('h')
}

/// `j` and the down key go one item down, `k` and the up key one up, and `d` and `u` with
/// control fifteen, as far as there are items. The scroll offset stays if the cursor is in
/// one of the 38 rows from it on, and else goes just as far as brings it there.
pub proof fn moving_keys(e: ExplorerView, key: KeyEvent, step: int, disk: Disk)
    requires
        e.focused,
        ((key.code == KeyCode::Char('j') || key.code == KeyCode::Down) && step == 1) || ((key.code
            == KeyCode::Char('k') || key.code == KeyCode::Up) && step == -1) || (key.code
            == KeyCode::Char('d') && key.control && step == 15) || (key.code == KeyCode::Char('u')
            && key.control && step == -15),
    ensures
        ({
            let after = e.after_event(Event::Key(key), disk);
            let last = e.items().len() - 1;
            let target = e.cursor + step;
            &&& step > 0 ==> after.cursor == if target < last {
                target
            } else {
                last
            }
            &&& step < 0 ==> after.cursor == if target > 0 {
                target
            } else {
                0
            }
            &&& after.cursor < e.scroll_offset ==> after.scroll_offset == after.cursor
            &&& e.scroll_offset <= after.cursor < e.scroll_offset + 38 ==> after.scroll_offset
                == e.scroll_offset
            &&& after.cursor >= e.scroll_offset + 38 ==> after.scroll_offset + 37 == after.cursor
            &&& after.root == e.root
            &&& after.focused
            &&& after.git_statuses == e.git_statuses
            &&& e.result_of(Event::Key(key)) == ResultView::Consumed(None)
        }),
{
}

/// `g` goes to the first item and to the top, and `G` to the last item.
pub proof fn jumping_keys(e: ExplorerView, control: bool, disk: Disk)
    requires
        e.focused,
    ensures
        ({
            let key = Event::Key(KeyEvent { code: KeyCode::Char('g'), control });
            &&& e.after_event(key, disk) == (ExplorerView { cursor: 0, scroll_offset: 0, ..e })
            &&& e.result_of(key) == ResultView::Consumed(None)
        }),
        ({
            let key = Event::Key(KeyEvent { code: KeyCode::Char('G'), control });
            let after = e.after_event(key, disk);
            &&& after.cursor + 1 == e.items().len()
            &&& after == (ExplorerView { cursor: after.cursor, ..e })
            &&& e.result_of(key) == ResultView::Consumed(None)
        }),
{
}

/// All other keys, and all that is no key, are used up without effect.
pub proof fn idle_events(e: ExplorerView, event: Event, disk: Disk)
    requires
        e.focused,
        match event {
            Event::Other => true,
            Event::Key(key) => match key.code {
                KeyCode::Other => true,
                KeyCode::Char(c) => c != 'q' && c != 'j' && c != 'k' && c != 'g' && c != 'G' && c
                    != 'l' && c != 'h' && c != 'a' && c != 'd' && c != 'r' && !(c == 'u'
                    && key.control),
                _ => false,
            },
        },
    ensures
        e.after_event(event, disk) == e,
        e.result_of(event) == ResultView::Consumed(None),
{
}

/// Without an item under the cursor, the keys that work on one do nothing.
pub proof fn keys_without_item(e: ExplorerView, key: KeyEvent, disk: Disk)
    requires
        e.focused,
        e.cursor >= e.items().len(),
        activates(key) || ascends(key) || key.code == KeyCode::Char('a') || key.code
            == KeyCode::Char('r') || (key.code == KeyCode::Char('d') && !key.control),
    ensures
        e.after_event(Event::Key(key), disk) == e,
        e.result_of(Event::Key(key)) == ResultView::Consumed(None),
{
}

/// `a` asks for something new in the selected directory itself or, where a file is
/// selected, in the directory that the file's path lies in: its components are those of the
/// file without the last one. A path that lies in nothing makes it the root.
pub proof fn create_key(e: ExplorerView, control: bool, disk: Disk)
    requires
        e.focused,
        e.cursor < e.items().len(),
    ensures
        ({
            let key = Event::Key(KeyEvent { code: KeyCode::Char('a'), control });
            let node = e.items()[e.cursor as int];
            let steps = components_of(node.path);
            let inside = steps.len() > 0 && steps != seq![Step::Root];
            &&& e.after_event(key, disk) == e
            &&& e.result_of(key) matches ResultView::Consumed(
                Some(ActionView::Create { base_dir }),
            ) && (node.is_dir ==> base_dir == node.path) && (!node.is_dir && inside
                ==> components_of(base_dir) == steps.take(steps.len() - 1)) && (!node.is_dir
                && !inside ==> base_dir == e.root.path)
        }),
{
    let node = e.items()[e.cursor as int];
    let steps = components_of(node.path);
    parent_drops_last(node.path);
    if steps.len() > 0 {
        assert(steps.drop_last() =~= steps.take(steps.len() - 1));
    }
    if parent_of(node.path) is Some && steps == seq![Step::Root] {
        parent_of_root(node.path);
    }
}

/// Where a file below the root is selected, `a` asks for something new in the directory
/// that is shown above the file and has it among its children.
pub proof fn create_next_to_file(e: ExplorerView, control: bool)
    requires
        e.focused,
        e.well_formed(),
        0 < e.cursor < e.items().len(),
        !e.items()[e.cursor as int].is_dir,
    ensures
        ({
            let key = Event::Key(KeyEvent { code: KeyCode::Char('a'), control });
            let node = e.items()[e.cursor as int];
            e.result_of(key) matches ResultView::Consumed(Some(ActionView::Create { base_dir }))
                && exists|j: int|
                0 <= j < e.cursor && (#[trigger] e.items()[j]).children.contains(node) && same_path(
                    e.items()[j].path,
                    base_dir,
                )
        }),
{
    let node = e.items()[e.cursor as int];
    let j = lemma_parent_shown(e.root, e.cursor as int);
    assert(e.items()[j].children.contains(node));
}

/// `d` without control asks whether to delete the item under the cursor: its path, its kind
/// and its name.
pub proof fn delete_key(e: ExplorerView, disk: Disk)
    requires
        e.focused,
        e.cursor < e.items().len(),
    ensures
        ({
            let key = Event::Key(KeyEvent { code: KeyCode::Char('d'), control: false });
            let node = e.items()[e.cursor as int];
            &&& e.after_event(key, disk) == e
            &&& e.result_of(key) matches ResultView::Consumed(
                Some(ActionView::Delete { path, is_dir, name }),
            ) && path == node.path && is_dir == node.is_dir && name == node.name
        }),
{
}

/// `r` asks for a new name of the item under the cursor.
pub proof fn rename_key(e: ExplorerView, control: bool, disk: Disk)
    requires
        e.focused,
        e.cursor < e.items().len(),
    ensures
        ({
            let key = Event::Key(KeyEvent { code: KeyCode::Char('r'), control });
            let node = e.items()[e.cursor as int];
            &&& e.after_event(key, disk) == e
            &&& e.result_of(key) matches ResultView::Consumed(
                Some(ActionView::Rename { path, name }),
            ) && path == node.path && name == node.name
        }),
{
}

/// The enter key, the right key and `l` open a selected file.
pub proof fn open_keys(e: ExplorerView, key: KeyEvent, disk: Disk)
    requires
        e.focused,
        activates(key),
        e.cursor < e.items().len(),
        !e.items()[e.cursor as int].is_dir,
    ensures
        e.after_event(Event::Key(key), disk) == e,
        e.result_of(Event::Key(key)) == ResultView::Consumed(
            Some(ActionView::Open(e.items()[e.cursor as int].path)),
        ),
{
}

/// The same keys collapse a selected directory that is expanded: the lines below it go.
pub proof fn collapse_keys(e: ExplorerView, key: KeyEvent, disk: Disk)
    requires
        e.focused,
        activates(key) || ascends(key),
        e.cursor < e.items().len(),
        apart(e.items()),
        e.items()[e.cursor as int].is_dir,
        e.items()[e.cursor as int].expanded,
    ensures
        ({
            let node = e.items()[e.cursor as int];
            let after = e.after_event(Event::Key(key), disk);
            let all = lines(e.items());
            &&& after == (ExplorerView { root: after.root, ..e })
            &&& lines(after.items()) == all.take(e.cursor as int) + seq![
                Line { expanded: false, ..all[e.cursor as int] },
            ] + all.skip(e.cursor as int + flat(node).len())
            &&& e.result_of(Event::Key(key)) == ResultView::Consumed(None)
        }),
{
    ascend_collapses(e, disk);
}

/// They expand a selected directory that is collapsed. If it is read then, its entries
/// appear below it, one deeper; if it was read before, what was below it appears again. All
/// other lines stay.
pub proof fn expand_keys(e: ExplorerView, key: KeyEvent, disk: Disk)
    requires
        e.focused,
        activates(key),
        e.cursor < e.items().len(),
        apart(e.items()),
        e.items()[e.cursor as int].is_dir,
        !e.items()[e.cursor as int].expanded,
    ensures
        ({
            let node = e.items()[e.cursor as int];
            let after = e.after_event(Event::Key(key), disk);
            let all = lines(e.items());
            let dir = components_of(node.path);
            let below = if node.children_loaded || !disk.contains_key(dir) {
                flat_all(node.children)
            } else {
                listed(node.path, node.depth + 1, disk[dir])
            };
            &&& after == (ExplorerView { root: after.root, ..e })
            &&& lines(after.items()) == all.take(e.cursor as int) + (seq![
                Line { expanded: true, ..all[e.cursor as int] },
            ] + lines(below)) + all.skip(e.cursor as int + 1)
            &&& e.result_of(Event::Key(key)) == ResultView::Consumed(None)
        }),
{
    let node = e.items()[e.cursor as int];
    let dir = components_of(node.path);
    toggle_selected(e, disk);
    let now = toggled(node, disk);
    let below = if node.children_loaded || !disk.contains_key(dir) {
        flat_all(node.children)
    } else {
        listed(node.path, node.depth + 1, disk[dir])
    };
    if !node.children_loaded && disk.contains_key(dir) {
        let children = now.children;
        assert forall|i: int| 0 <= i < children.len() implies !(#[trigger] children[i]).expanded by {
            let f = lemma_listed_from(node.path, node.depth + 1, disk[dir], i);
        }
        lemma_flat_all_collapsed(children);
    }
    assert(flat(now) == seq![now] + flat_all(now.children));
    assert(flat(now) =~= seq![now] + below);
    assert(lines(flat(now)) =~= seq![line_of(now)] + lines(below));
    assert(flat(node).len() == 1);
}

/// From a file or a collapsed directory, `h` and the left key go to the directory that it is
/// in; from the root they go nowhere.
pub proof fn ascend_keys(e: ExplorerView, key: KeyEvent, disk: Disk)
    requires
        e.focused,
        ascends(key),
        e.well_formed(),
        e.cursor < e.items().len(),
        apart(e.items()),
        !(e.items()[e.cursor as int].is_dir && e.items()[e.cursor as int].expanded),
    ensures
        ({
            let node = e.items()[e.cursor as int];
            let after = e.after_event(Event::Key(key), disk);
            &&& after == (ExplorerView { cursor: after.cursor, ..e })
            &&& e.cursor == 0 ==> after == e
            &&& e.cursor > 0 ==> after.cursor < e.cursor
                && e.items()[after.cursor as int].children.contains(node)
            &&& e.result_of(Event::Key(key)) == ResultView::Consumed(None)
        }),
{
    if e.cursor > 0 {
        ascend_selected(e, disk);
    }
}

/// A directory is wanted before an event if and only if the event is one of the keys that
/// expand, with the focus, and a collapsed directory that was not read is selected.
pub proof fn wanted_exactly(e: ExplorerView, event: Event)
    requires
        e.cursor < e.items().len(),
        apart(e.items()),
    ensures
        ({
            let node = e.items()[e.cursor as int];
            let expands = event matches Event::Key(key) && activates(key);
            &&& e.wanted_for(event) is Some <==> e.focused && expands && node.is_dir
                && !node.expanded && !node.children_loaded
            &&& e.wanted_for(event) matches Some(dir) ==> dir == node.path
        }),
{
    apart_once(e.items(), e.cursor as int);
}

/// The explorer is found under `tree-explorer`.
pub proof fn name_of_explorer()
    ensures
        explorer_id() == "tree-explorer"@,
{
}

}
