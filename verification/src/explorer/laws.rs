//! What holds of the explorer, whatever keys come and whatever is on the disk.

use vstd::prelude::*;

use super::events::{
    command_of, explorer_id, ActionView, Command, Event, KeyCode, KeyEvent, ResultView,
};
use super::motion::moved_cursor;
use super::{opened, ExplorerView};
use crate::distinct::{
    apart, apart_once, distinct, loaded_distinct, refreshed_distinct, shown_apart, shown_below,
    toggled_at_distinct,
};
use crate::listing::{names_distinct, names_valid, Disk};
use crate::path::{
    components_of, components_shape, entry_path, file_name_of, parent_of, same_path, Step,
};
use crate::refresh::lemma_first_at;
use crate::shape::{
    lemma_listed_from, loaded_well_formed, refreshed_well_formed, toggled_at_identity,
    toggled_at_well_formed,
};
use crate::shown::{
    agree_at, lemma_block, lemma_flat_all_at, lemma_flat_all_cut, lemma_shown_at, line_of, lines,
    spliced, toggle_changes_block, toggled_at_reads, toggled_at_twice,
};
use crate::steady::refreshed_after_loading;
use crate::tree::{
    child_of, first_at, flat, flat_all, fresh, ignored, listed, refreshed, shows, toggled,
    well_formed, NodeView,
};

verus! {

impl ExplorerView {
    /// Whether the explorer is in order: its tree is well formed and has no path twice, and
    /// its cursor is on an item.
    pub open spec fn settled(self) -> bool {
        &&& self.well_formed()
        &&& distinct(self.root)
        &&& self.cursor < self.items().len()
    }
}

/// The root is always the first item.
pub proof fn root_is_first(e: ExplorerView)
    ensures
        e.items().len() > 0,
        e.items()[0] == e.root,
{
}

/// Reading the tree a second time while an explorer is opened changes nothing. The explorer
/// shows its root, expanded, and under it the entries of the root, collapsed.
pub proof fn opened_shows_root(e: ExplorerView, path: Seq<u8>, is_dir: bool, disk: Disk)
    requires
        e.root == refreshed(opened(path, is_dir, disk), disk),
    ensures
        e.root == opened(path, is_dir, disk),
        e.root.expanded,
        e.items() == seq![e.root] + if is_dir && disk.contains_key(components_of(path)) {
            listed(path, 1, disk[components_of(path)])
        } else {
            seq![]
        },
{
    refreshed_after_loading(NodeView { expanded: true, ..fresh(path, is_dir, 0) }, disk);
    let children = e.root.children;
    assert forall|i: int| 0 <= i < children.len() implies !(#[trigger] children[i]).expanded by {
        let f = lemma_listed_from(path, 1, disk[components_of(path)], i);
    }
    lemma_flat_all_collapsed(children);
}

/// An explorer that was just opened is in order.
pub proof fn opened_settled(e: ExplorerView, path: Seq<u8>, is_dir: bool, disk: Disk)
    requires
        names_valid(disk),
        names_distinct(disk),
        e.root == refreshed(opened(path, is_dir, disk), disk),
        e.cursor == 0,
    ensures
        e.settled(),
{
    let n = NodeView { expanded: true, ..fresh(path, is_dir, 0) };
    assert(well_formed(NodeView { expanded: false, ..n }));
    if is_dir {
        loaded_well_formed(n, disk);
    }
    assert(distinct(n));
    loaded_distinct(n, disk);
    refreshed_after_loading(n, disk);
}

pub proof fn lemma_flat_all_collapsed(nodes: Seq<NodeView>)
    requires
        forall|i: int| 0 <= i < nodes.len() ==> !(#[trigger] nodes[i]).expanded,
    ensures
        flat_all(nodes) == nodes,
    decreases nodes.len(),
{
    if nodes.len() > 0 {
        let ahead = nodes.drop_last();
        assert forall|i: int| 0 <= i < ahead.len() implies !(#[trigger] ahead[i]).expanded by {
            assert(ahead[i] == nodes[i]);
        }
        lemma_flat_all_collapsed(ahead);
        let last = nodes[nodes.len() - 1];
        assert(flat(last) =~= seq![last]);
        assert(nodes =~= ahead.push(last));
        assert(flat_all(nodes) =~= nodes);
    }
}

/// Toggling the selected node changes the lines from the cursor on, and leaves the cursor
/// on that node.
pub proof fn toggle_selected(e: ExplorerView, disk: Disk)
    requires
        e.cursor < e.items().len(),
        apart(e.items()),
    ensures
        ({
            let node = e.items()[e.cursor as int];
            let after = e.after_toggle(node.path, disk);
            &&& lines(after.items()) == spliced(
                lines(e.items()),
                e.cursor as int,
                flat(node).len() as int,
                lines(flat(toggled(node, disk))),
            )
            &&& e.cursor < after.items().len()
            &&& line_of(after.items()[e.cursor as int]) == line_of(toggled(node, disk))
        }),
{
    let i = e.cursor as int;
    let node = e.items()[i];
    let after = e.after_toggle(node.path, disk);
    apart_once(e.items(), i);
    lemma_shown_at(e.root, node.path);
    toggle_changes_block(e.root, node.path, disk);
    lemma_block(e.root, i);
    let now = toggled(node, disk);
    assert(flat(now)[0] == now);
    let middle = lines(flat(now));
    assert(middle[0] == line_of(now));
    let all = lines(after.items());
    assert(all == lines(e.items()).take(i) + middle + lines(e.items()).skip(i + flat(node).len()));
    assert(all[i] == middle[0]);
    assert(all.len() == after.items().len());
    assert(all[i] == line_of(after.items()[i]));
}

/// Where no path is shown twice, the cursor stays on an item, whatever event comes and
/// whatever the disk holds.
pub proof fn events_keep_cursor(e: ExplorerView, event: Event, disk: Disk)
    requires
        e.cursor < e.items().len(),
        apart(e.items()),
    ensures
        e.after_event(event, disk).cursor < e.after_event(event, disk).items().len(),
{
    if e.focused && event is Key {
        let command = command_of(event->Key_0);
        match e.toggle_target(command) {
            Some(path) => {
                toggle_selected(e, disk);
            },
            None => {
                let node = e.items()[e.cursor as int];
                if parent_of(node.path) is Some {
                    lemma_first_at(e.items(), parent_of(node.path).unwrap());
                }
            },
        }
    }
}

/// Every event leaves an explorer in order that is in order.
pub proof fn events_keep_settled(e: ExplorerView, event: Event, disk: Disk)
    requires
        names_valid(disk),
        names_distinct(disk),
        e.settled(),
    ensures
        e.after_event(event, disk).settled(),
{
    shown_apart(e.root);
    events_keep_cursor(e, event, disk);
    if e.focused && event is Key {
        match e.toggle_target(command_of(event->Key_0)) {
            Some(path) => {
                toggled_at_well_formed(e.root, path, disk);
                toggled_at_identity(e.root, path, disk);
                toggled_at_distinct(e.root, path, disk);
            },
            None => {},
        }
    }
}

/// Reading the tree again after something was deleted leaves it in order, whatever the
/// disk holds now; without setting the cursor right, all but the cursor is in order.
pub proof fn refresh_settles(e: ExplorerView, disk: Disk)
    requires
        names_valid(disk),
        names_distinct(disk),
        e.well_formed(),
        distinct(e.root),
    ensures
        ({
            let after = ExplorerView { root: refreshed(e.root, disk), ..e };
            after.well_formed() && distinct(after.root) && after.clamped().settled()
        }),
{
    refreshed_well_formed(e.root, disk);
    refreshed_distinct(e.root, disk);
}

/// Without the focus, the explorer passes on every event and stays as it is; with it, it
/// uses up every event.
pub proof fn focus_decides(e: ExplorerView, event: Event, disk: Disk)
    ensures
        !e.focused ==> e.result_of(event) is Ignored && e.after_event(event, disk) == e,
        e.focused ==> e.result_of(event) is Consumed,
        e.after_event(event, disk).focused == e.focused,
        e.after_event(event, disk).git_statuses == e.git_statuses,
{
}

/// The keys that close the explorer ask for the removal of what is found under its own
/// name, in every state in which it has the focus, and change nothing.
pub proof fn close_goes_by_id(e: ExplorerView, key: KeyEvent, disk: Disk)
    requires
        e.focused,
        key.code == KeyCode::Esc || key.code == KeyCode::Char('q'),
    ensures
        e.result_of(Event::Key(key)) == ResultView::Consumed(
            Some(ActionView::Close { id: explorer_id() }),
        ),
        e.after_event(Event::Key(key), disk) == e,
{
}

/// Activating a directory expands it if it was collapsed, and collapses it if it was
/// expanded; the cursor stays on it. A file is opened, and nothing else happens.
pub proof fn activate_selected(e: ExplorerView, disk: Disk)
    requires
        e.cursor < e.items().len(),
        apart(e.items()),
    ensures
        ({
            let node = e.items()[e.cursor as int];
            let after = e.after_command(Command::Activate, disk);
            if node.is_dir {
                &&& e.action_of(Command::Activate) is None
                &&& after.cursor == e.cursor
                &&& after.selected() matches Some(now) && line_of(now) == line_of(
                    NodeView { expanded: !node.expanded, ..node },
                )
            } else {
                &&& e.action_of(Command::Activate) is Some
                &&& after == e
            }
        }),
{
    if e.items()[e.cursor as int].is_dir {
        toggle_selected(e, disk);
    }
}

/// Activating a directory twice shows again what was shown before.
pub proof fn activate_twice(e: ExplorerView, disk: Disk, later: Disk)
    requires
        e.cursor < e.items().len(),
        apart(e.items()),
        e.items()[e.cursor as int].is_dir,
        e.items()[e.cursor as int].expanded ==> e.items()[e.cursor as int].children_loaded,
    ensures
        ({
            let twice = e.after_command(Command::Activate, disk).after_command(
                Command::Activate,
                later,
            );
            lines(twice.items()) == lines(e.items()) && twice.cursor == e.cursor
        }),
{
    let node = e.items()[e.cursor as int];
    activate_selected(e, disk);
    apart_once(e.items(), e.cursor as int);
    lemma_shown_at(e.root, node.path);
    toggled_at_twice(e.root, node.path, disk, later);
    let once = e.after_command(Command::Activate, disk);
    assert(once.items()[e.cursor as int].path == node.path);
}

/// The directory above a node that is shown is shown before it, expanded and one less
/// deep, and the node is among its children.
pub proof fn lemma_parent_shown(n: NodeView, i: int) -> (j: int)
    requires
        well_formed(n),
        0 < i < flat(n).len(),
    ensures
        0 <= j < i,
        flat(n)[j].expanded,
        flat(n)[j].depth + 1 == flat(n)[i].depth,
        flat(n)[j].children.contains(flat(n)[i]),
        parent_of(flat(n)[i].path) is Some,
        same_path(parent_of(flat(n)[i].path).unwrap(), flat(n)[j].path),
    decreases n,
{
    let k = lemma_flat_all_at(n.children, i - 1);
    let child = n.children[k];
    let offset = flat_all(n.children.take(k)).len() as int;
    let p = i - 1 - offset;
    assert(child_of(child, n.path, n.depth) && well_formed(child));
    if p == 0 {
        assert(flat(n)[0] == n);
        assert(flat(n)[i] == child);
        components_shape(child.path);
        let steps = components_of(child.path);
        let name = file_name_of(child.path).unwrap();
        assert(steps[steps.len() - 1] == Step::Normal(name));
        entry_path(n.path, name);
        0
    } else {
        let q = lemma_parent_shown(child, p);
        lemma_flat_all_cut(n.children, k);
        let j = 1 + offset + q;
        assert(flat(n)[j] == flat(child)[q]);
        j
    }
}

/// Going up from a file or a collapsed directory goes to the directory that it is in: one
/// that is shown before it, expanded and one less deep.
pub proof fn ascend_selected(e: ExplorerView, disk: Disk)
    requires
        e.well_formed(),
        e.cursor < e.items().len(),
        apart(e.items()),
        e.cursor > 0,
        !(e.items()[e.cursor as int].is_dir && e.items()[e.cursor as int].expanded),
    ensures
        ({
            let node = e.items()[e.cursor as int];
            let after = e.after_command(Command::Ascend, disk);
            &&& after == (ExplorerView { cursor: after.cursor, ..e })
            &&& after.cursor < e.cursor
            &&& after.selected() matches Some(dir) && dir.expanded && dir.depth + 1 == node.depth
                && dir.children.contains(node) && same_path(
                parent_of(node.path).unwrap(),
                dir.path,
            )
        }),
{
    let all = e.items();
    let node = all[e.cursor as int];
    let j = lemma_parent_shown(e.root, e.cursor as int);
    shown_below(e.root, e.cursor as int);
    let parent = parent_of(node.path).unwrap();
    lemma_first_at(all, parent);
    let k = first_at(all, parent);
    assert(same_path(all[j].path, parent));
    if k < j {
        assert(!same_path(all[k].path, all[j].path));
    }
}

/// Going up from an expanded directory collapses it: the lines below it go, and nothing
/// else.
pub proof fn ascend_collapses(e: ExplorerView, disk: Disk)
    requires
        e.cursor < e.items().len(),
        apart(e.items()),
        e.items()[e.cursor as int].is_dir,
        e.items()[e.cursor as int].expanded,
    ensures
        ({
            let node = e.items()[e.cursor as int];
            let after = e.after_command(Command::Ascend, disk);
            &&& after.cursor == e.cursor
            &&& lines(after.items()) == spliced(
                lines(e.items()),
                e.cursor as int,
                flat(node).len() as int,
                seq![line_of(NodeView { expanded: false, ..node })],
            )
        }),
{
    let node = e.items()[e.cursor as int];
    toggle_selected(e, disk);
    let now = toggled(node, disk);
    assert(lines(flat(now)) =~= seq![line_of(now)]);
}

/// What an event makes of the explorer depends on the disk only for the directory that
/// is wanted for it.
pub proof fn events_read_wanted(e: ExplorerView, event: Event, disk: Disk, other: Disk)
    requires
        e.wanted_for(event) matches Some(dir) ==> agree_at(disk, other, components_of(dir)),
    ensures
        e.after_event(event, disk) == e.after_event(event, other),
{
    if e.focused && event is Key {
        let command = command_of(event->Key_0);
        match e.toggle_target(command) {
            Some(path) => {
                let all = e.items();
                assert(same_path(all[e.cursor as int].path, path));
                assert(shows(e.root, path));
                lemma_shown_at(e.root, path);
                toggled_at_reads(e.root, path, disk, other);
            },
            None => {},
        }
    }
}

/// Nothing that is hidden or left out is ever shown below the root.
pub proof fn ignored_not_shown(e: ExplorerView, i: int)
    requires
        e.well_formed(),
        0 < i < e.items().len(),
    ensures
        !ignored(e.items()[i].name),
{
    shown_below(e.root, i);
}

/// Moving and then moving back by as much comes back, unless an end was in the way.
pub proof fn move_there_and_back(cursor: int, delta: int, len: int)
    requires
        0 <= cursor < len,
        0 <= cursor + delta < len,
    ensures
        moved_cursor(moved_cursor(cursor, delta, len), -delta, len) == cursor,
{
}

}
