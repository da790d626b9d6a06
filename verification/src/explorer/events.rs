//! What the keys do.

use vstd::prelude::*;

use super::{ExplorerView, TreeExplorer};
use crate::listing::{names_plain, Disk, Snapshot};
use crate::node::{ref_views, TreeNode};
use crate::path::{parent_of, same_path, TreePath};
use crate::refresh::lemma_first_at;

use crate::tree::{first_at, toggled_at, NodeView};

verus! {

/// The height, border included, that the explorer is taken to have while keys are
/// handled. Drawing it puts the scroll offset right.
pub const ASSUMED_HEIGHT: u16 = 40;

/// How far a page movement goes.
pub const PAGE: i32 = 15;

/// A key.
#[derive(Clone, Copy, PartialEq, Eq, Debug)]
pub enum KeyCode {
    Esc,
    Enter,
    Up,
    Down,
    Left,
    Right,
    Char(char),
    /// Any other key.
    Other,
}

/// A key that was pressed, and whether the control key was held.
#[derive(Clone, Copy, PartialEq, Eq, Debug)]
pub struct KeyEvent {
    pub code: KeyCode,
    pub control: bool,
}

/// What may come to the explorer.
#[derive(Clone, Copy, PartialEq, Eq, Debug)]
pub enum Event {
    Key(KeyEvent),
    /// Anything but a key.
    Other,
}

/// What a key asks for.
#[derive(Clone, Copy, PartialEq, Eq, Debug)]
pub enum Command {
    Close,
    /// Move the cursor by so many items.
    Move(i32),
    Top,
    Bottom,
    /// Toggle a directory, or open a file.
    Activate,
    /// Collapse a directory, or go to the one above.
    Ascend,
    Create,
    Delete,
    Rename,
    Nothing,
}

/// What is left to do outside of the explorer.
#[derive(Debug)]
pub enum Action {
    /// Close the explorer: remove what is found under a name.
    Close { id: &'static str },
    /// Open a file, and take the focus from the explorer.
    Open(TreePath),
    /// Ask for the name of a new file or directory in a directory.
    Create { base_dir: TreePath },
    /// Ask whether to delete.
    Delete { path: TreePath, is_dir: bool, name: String },
    /// Ask for a new name.
    Rename { path: TreePath, name: String },
}

/// The mathematical value of an [`Action`].
pub enum ActionView {
    Close { id: Seq<char> },
    Open(Seq<u8>),
    Create { base_dir: Seq<u8> },
    Delete { path: Seq<u8>, is_dir: bool, name: Seq<char> },
    Rename { path: Seq<u8>, name: Seq<char> },
}

impl Action {
    pub open spec fn view(&self) -> ActionView {
        match self {
            Action::Close { id } => ActionView::Close { id: id@ },
            Action::Open(path) => ActionView::Open(path@),
            Action::Create { base_dir } => ActionView::Create { base_dir: base_dir@ },
            Action::Delete { path, is_dir, name } => ActionView::Delete {
                path: path@,
                is_dir: *is_dir,
                name: name@,
            },
            Action::Rename { path, name } => ActionView::Rename { path: path@, name: name@ },
        }
    }
}

/// What became of an event.
#[derive(Debug)]
pub enum EventResult {
    /// The event is for someone else.
    Ignored,
    /// The event was used up, and something may be left to do.
    Consumed(Option<Action>),
}

/// The mathematical value of an [`EventResult`].
pub enum ResultView {
    Ignored,
    Consumed(Option<ActionView>),
}

impl EventResult {
    pub open spec fn view(&self) -> ResultView {
        match self {
            EventResult::Ignored => ResultView::Ignored,
            EventResult::Consumed(None) => ResultView::Consumed(None),
            EventResult::Consumed(Some(action)) => ResultView::Consumed(Some(action@)),
        }
    }
}

/// The name under which the explorer is found.
pub open spec fn explorer_id() -> Seq<char> {
    "tree-explorer"@
}

/// What a key asks for.
pub open spec fn command_of(key: KeyEvent) -> Command {
    match key.code {
        KeyCode::Esc => Command::Close,
        KeyCode::Down => Command::Move(1),
        KeyCode::Up => Command::Move((-1) as i32),
        KeyCode::Enter => Command::Activate,
        KeyCode::Right => Command::Activate,
        KeyCode::Left => Command::Ascend,
        KeyCode::Other => Command::Nothing,
        KeyCode::Char(c) => if c == 'q' {
            Command::Close
        } else if c == 'j' {
            Command::Move(1)
        } else if c == 'k' {
            Command::Move((-1) as i32)
        } else if c == 'd' && key.control {
            Command::Move(PAGE)
        } else if c == 'u' && key.control {
            Command::Move((-PAGE) as i32)
        } else if c == 'g' {
            Command::Top
        } else if c == 'G' {
            Command::Bottom
        } else if c == 'l' {
            Command::Activate
        } else if c == 'h' {
            Command::Ascend
        } else if c == 'a' {
            Command::Create
        } else if c == 'd' {
            Command::Delete
        } else if c == 'r' {
            Command::Rename
        } else {
            Command::Nothing
        },
    }
}

impl KeyEvent {
    /// What this key asks for.
    pub fn command(&self) -> (command: Command)
        ensures
            command == command_of(*self),
    {
        match self.code {
            KeyCode::Esc => Command::Close,
            KeyCode::Down => Command::Move(1),
            KeyCode::Up => Command::Move(-1),
            KeyCode::Enter => Command::Activate,
            KeyCode::Right => Command::Activate,
            KeyCode::Left => Command::Ascend,
            KeyCode::Other => Command::Nothing,
            KeyCode::Char(c) => match c {
                'q' => Command::Close,
                'j' => Command::Move(1),
                'k' => Command::Move(-1),
                'd' => if self.control {
                    Command::Move(PAGE)
                } else {
                    Command::Delete
                },
                'u' => if self.control {
                    Command::Move(-PAGE)
                } else {
                    Command::Nothing
                },
                'g' => Command::Top,
                'G' => Command::Bottom,
                'l' => Command::Activate,
                'h' => Command::Ascend,
                'a' => Command::Create,
                'r' => Command::Rename,
                _ => Command::Nothing,
            },
        }
    }
}

impl ExplorerView {
    /// The node under the cursor, where there is one.
    pub open spec fn selected(self) -> Option<NodeView> {
        if self.cursor < self.items().len() {
            Some(self.items()[self.cursor as int])
        } else {
            None
        }
    }

    /// The explorer after a path was toggled.
    pub open spec fn after_toggle(self, path: Seq<u8>, disk: Disk) -> ExplorerView {
        ExplorerView { root: toggled_at(self.root, path, disk), ..self }
    }

    /// The explorer after the cursor went to the directory above a node, if that is
    /// shown.
    pub open spec fn after_ascent(self, node: NodeView) -> ExplorerView {
        match parent_of(node.path) {
            Some(parent) => {
                let k = first_at(self.items(), parent);
                if k < self.items().len() {
                    ExplorerView { cursor: k as nat, ..self }
                } else {
                    self
                }
            },
            None => self,
        }
    }

    /// The directory in which something is created while a node is selected: the node
    /// itself, or the directory it is in.
    pub open spec fn create_dir(self, node: NodeView) -> Seq<u8> {
        if node.is_dir {
            node.path
        } else {
            match parent_of(node.path) {
                Some(parent) => parent,
                None => self.root.path,
            }
        }
    }

    /// The path that a command toggles, if any.
    pub open spec fn toggle_target(self, command: Command) -> Option<Seq<u8>> {
        match self.selected() {
            Some(node) => match command {
                Command::Activate => if node.is_dir {
                    Some(node.path)
                } else {
                    None
                },
                Command::Ascend => if node.is_dir && node.expanded {
                    Some(node.path)
                } else {
                    None
                },
                _ => None,
            },
            None => None,
        }
    }

    /// The explorer after a command.
    pub open spec fn after_command(self, command: Command, disk: Disk) -> ExplorerView {
        match self.toggle_target(command) {
            Some(path) => self.after_toggle(path, disk),
            None => match command {
                Command::Move(delta) => self.after_move(delta as int, ASSUMED_HEIGHT as int),
                Command::Top => ExplorerView { cursor: 0, scroll_offset: 0, ..self },
                Command::Bottom => ExplorerView { cursor: (self.items().len() - 1) as nat, ..self },
                Command::Ascend => match self.selected() {
                    Some(node) => if node.depth > 0 {
                        self.after_ascent(node)
                    } else {
                        self
                    },
                    None => self,
                },
                _ => self,
            },
        }
    }

    /// What a command leaves to do.
    pub open spec fn action_of(self, command: Command) -> Option<ActionView> {
        match (command, self.selected()) {
            (Command::Close, _) => Some(ActionView::Close { id: explorer_id() }),
            (Command::Activate, Some(node)) => if node.is_dir {
                None
            } else {
                Some(ActionView::Open(node.path))
            },
            (Command::Create, Some(node)) => Some(
                ActionView::Create { base_dir: self.create_dir(node) },
            ),
            (Command::Delete, Some(node)) => Some(
                ActionView::Delete { path: node.path, is_dir: node.is_dir, name: node.name },
            ),
            (Command::Rename, Some(node)) => Some(
                ActionView::Rename { path: node.path, name: node.name },
            ),
            _ => None,
        }
    }

    /// The explorer after an event. Without the focus nothing changes it.
    pub open spec fn after_event(self, event: Event, disk: Disk) -> ExplorerView {
        match event {
            Event::Key(key) => if self.focused {
                self.after_command(command_of(key), disk)
            } else {
                self
            },
            Event::Other => self,
        }
    }

    /// What becomes of an event. With the focus every one is used up.
    pub open spec fn result_of(self, event: Event) -> ResultView {
        if !self.focused {
            ResultView::Ignored
        } else {
            match event {
                Event::Key(key) => ResultView::Consumed(self.action_of(command_of(key))),
                Event::Other => ResultView::Consumed(None),
            }
        }
    }

    /// The directory that has to be read before a command, if any: the one that it
    /// expands for the first time.
    pub open spec fn wanted_by(self, command: Command) -> Option<Seq<u8>> {
        match self.toggle_target(command) {
            Some(path) => {
                let node = self.items()[first_at(self.items(), path)];
                if node.is_dir && !node.expanded && !node.children_loaded {
                    Some(node.path)
                } else {
                    None
                }
            },
            None => None,
        }
    }

    /// The directory that has to be read before an event is handled, if any.
    pub open spec fn wanted_for(self, event: Event) -> Option<Seq<u8>> {
        match event {
            Event::Key(key) => if self.focused {
                self.wanted_by(command_of(key))
            } else {
                None
            },
            Event::Other => None,
        }
    }
}

/// The first of what is shown that has a path, or how many there are.
fn find_item(items: &Vec<&TreeNode>, path: &TreePath) -> (k: usize)
    ensures
        k == first_at(ref_views(items@), path@),
        k <= items@.len(),
{
    let ghost all = ref_views(items@);
    proof {
        lemma_first_at(all, path@);
    }
    let mut i: usize = 0;
    while i < items.len() && !items[i].path.same(path)
        invariant
            i <= items@.len(),
            all == ref_views(items@),
            forall|j: int| 0 <= j < i ==> !same_path((#[trigger] all[j]).path, path@),
        decreases items@.len() - i,
    {
        assert(all[i as int] == items@[i as int]@);
        i = i + 1;
    }
    proof {
        if i < items@.len() {
            assert(all[i as int] == items@[i as int]@);
        }
    }
    i
}

impl TreeExplorer {
    /// The name under which the explorer is found.
    pub fn id(&self) -> (id: Option<&'static str>)
        ensures
            id matches Some(name) && name@ == explorer_id(),
    {
        Some("tree-explorer")
    }

    /// The node under the cursor, where there is one.
    pub fn selected(&self) -> (r: Option<&TreeNode>)
        ensures
            match r {
                Some(node) => self@.selected() == Some(node@),
                None => self@.selected() is None,
            },
    {
        let items = self.visible_items();
        assert(items@.len() == self@.items().len());
        if self.cursor < items.len() {
            let node = items[self.cursor];
            assert(self@.items()[self.cursor as int] == node@);
            Some(node)
        } else {
            None
        }
    }

    /// The path that a command toggles, if any.
    fn toggle_target(&self, command: &Command) -> (r: Option<TreePath>)
        ensures
            match r {
                Some(path) => self@.toggle_target(*command) == Some(path@),
                None => self@.toggle_target(*command) is None,
            },
    {
        let toggles = match self.selected() {
            Some(node) => match command {
                Command::Activate => node.is_dir,
                Command::Ascend => node.is_dir && node.expanded,
                _ => false,
            },
            None => false,
        };
        match self.selected() {
            Some(node) => if toggles {
                Some(node.path.clone())
            } else {
                None
            },
            None => None,
        }
    }

    /// The directory that has to be read before an event is handled, if any.
    pub fn listing_wanted(&self, event: &Event) -> (r: Option<TreePath>)
        ensures
            match r {
                Some(path) => self@.wanted_for(*event) == Some(path@),
                None => self@.wanted_for(*event) is None,
            },
    {
        if !self.focused {
            return None;
        }
        match event {
            Event::Key(key) => match self.toggle_target(&key.command()) {
                Some(path) => {
                    let items = self.visible_items();
                    let k = find_item(&items, &path);
                    proof {
                        let all = self@.items();
                        lemma_first_at(all, path@);
                        assert(same_path(all[self@.cursor as int].path, path@));
                        assert(all[k as int] == items@[k as int]@);
                    }
                    let node = items[k];
                    if node.is_dir && !node.expanded && !node.children_loaded {
                        Some(node.path.clone())
                    } else {
                        None
                    }
                },
                None => None,
            },
            Event::Other => None,
        }
    }

    /// Handles an event, with what was read of the disk.
    pub fn handle_event(&mut self, event: &Event, disk: &Snapshot) -> (r: EventResult)
        requires
            old(self)@.well_formed(),
        ensures
            final(self)@ == old(self)@.after_event(*event, disk@),
            final(self).status_map() == old(self).status_map(),
            r@ == old(self)@.result_of(*event),
            final(self)@.well_formed(),
            names_plain(disk@),
    {
        proof {
            use_type_invariant(disk);
        }
        if !self.focused {
            return EventResult::Ignored;
        }
        match event {
            Event::Key(key) => {
                let command = key.command();
                let action = self.pending_action(&command);
                self.perform(&command, disk);
                EventResult::Consumed(action)
            },
            Event::Other => EventResult::Consumed(None),
        }
    }

    /// What a command leaves to do.
    fn pending_action(&self, command: &Command) -> (r: Option<Action>)
        ensures
            match r {
                Some(action) => self@.action_of(*command) == Some(action@),
                None => self@.action_of(*command) is None,
            },
    {
        let selected = self.selected();
        match command {
            Command::Close => match self.id() {
                Some(id) => Some(Action::Close { id }),
                None => None,
            },
            Command::Activate => match selected {
                Some(node) => if node.is_dir {
                    None
                } else {
                    Some(Action::Open(node.path.clone()))
                },
                None => None,
            },
            Command::Create => match selected {
                Some(node) => {
                    let base_dir = if node.is_dir {
                        node.path.clone()
                    } else {
                        match node.path.parent() {
                            Some(parent) => parent,
                            None => self.root.path.clone(),
                        }
                    };
                    Some(Action::Create { base_dir })
                },
                None => None,
            },
            Command::Delete => match selected {
                Some(node) => Some(
                    Action::Delete {
                        path: node.path.clone(),
                        is_dir: node.is_dir,
                        name: node.name.clone(),
                    },
                ),
                None => None,
            },
            Command::Rename => match selected {
                Some(node) => Some(
                    Action::Rename { path: node.path.clone(), name: node.name.clone() },
                ),
                None => None,
            },
            _ => None,
        }
    }

    /// Does what a command asks of the explorer itself.
    fn perform(&mut self, command: &Command, disk: &Snapshot)
        requires
            old(self)@.well_formed(),
        ensures
            final(self)@ == old(self)@.after_command(*command, disk@),
            final(self).status_map() == old(self).status_map(),
            final(self)@.well_formed(),
    {
        match self.toggle_target(command) {
            Some(path) => {
                self.toggle_node_at_path(&path, disk);
            },
            None => match command {
                Command::Move(delta) => {
                    self.move_cursor(*delta, ASSUMED_HEIGHT);
                },
                Command::Top => {
                    self.cursor = 0;
                    self.scroll_offset = 0;
                },
                Command::Bottom => {
                    let len = self.visible_items().len();
                    assert(len == self@.items().len());
                    self.cursor = len - 1;
                },
                Command::Ascend => {
                    self.ascend();
                },
                _ => {},
            },
        }
    }

    /// Moves the cursor to the directory above the selected node.
    fn ascend(&mut self)
        ensures
            final(self)@ == match old(self)@.selected() {
                Some(node) => if node.depth > 0 {
                    old(self)@.after_ascent(node)
                } else {
                    old(self)@
                },
                None => old(self)@,
            },
            final(self).status_map() == old(self).status_map(),
    {
        let parent = match self.selected() {
            Some(node) => if node.depth > 0 {
                node.path.parent()
            } else {
                None
            },
            None => None,
        };
        match parent {
            Some(parent) => {
                let items = self.visible_items();
                let len = items.len();
                assert(len == self@.items().len());
                let k = find_item(&items, &parent);
                if k < len {
                    self.cursor = k;
                }
            },
            None => {},
        }
    }
}

}
