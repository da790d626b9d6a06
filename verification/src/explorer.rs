//! The explorer: a tree, a cursor in what is shown of it, and the marks of its files.

pub mod answers;
pub mod drawing;
pub mod events;
pub mod faces;
pub mod keys;
pub mod laws;
pub mod motion;
pub mod prompts;
pub mod render;

use vstd::prelude::*;

use crate::distinct::shown_below;
use crate::git::{all_divide, keys_named, lines_of, read_statuses, status_divides, statuses_of};
use crate::listing::{names_plain, Disk, Snapshot};
use crate::node::{depths_fit, ref_views, views, TreeNode};
use crate::path::{same_path, Step, TreePath};
use crate::path_map::PathMap;
use crate::refresh::{lemma_first_at, reread_children};
use crate::shape::{
    lemma_depths_fit, lemma_first_showing, lemma_shows, loaded_well_formed, refreshed_well_formed,
    toggled_at_identity, toggled_at_unshown, toggled_at_well_formed,
};
use crate::shown::{lemma_first_child, lemma_shown_at, target_fits};
use crate::text::{decode_lossy, lossy_plain, lossy_text};
use crate::tree::{
    first_at, first_showing, flat, fresh, last_flags, loaded, naming_bytes, read_before, refreshed,
    shows, to_read, toggled_at, tree_last_flags, well_formed, NodeView,
};

verus! {

/// The tree of a directory, as it is shown and moved about in.
#[derive(Debug)]
pub struct TreeExplorer {
    root: TreeNode,
    cursor: usize,
    scroll_offset: usize,
    /// Whether keys go to the explorer.
    pub focused: bool,
    /// The marks that `git status` gives to files, and the directories that hold them.
    pub git_statuses: PathMap<char>,
}

/// The mathematical value of a [`TreeExplorer`].
pub struct ExplorerView {
    pub root: NodeView,
    pub cursor: nat,
    pub scroll_offset: nat,
    pub focused: bool,
    pub git_statuses: Map<Seq<Step>, char>,
}

/// Whether what `git status` printed, if it ran well, can be read.
pub open spec fn output_readable(output: Option<Seq<u8>>) -> bool {
    match output {
        Some(bytes) => all_divide(lines_of(lossy_text(bytes))),
        None => true,
    }
}

/// Whether output that is valid UTF-8 is read as it is.
pub open spec fn output_plain(output: Option<Seq<u8>>) -> bool {
    match output {
        Some(bytes) => lossy_plain(bytes),
        None => true,
    }
}

/// The marks in what `git status` printed; none where it did not run well.
pub open spec fn output_statuses(root: Seq<u8>, output: Option<Seq<u8>>) -> Map<Seq<Step>, char> {
    match output {
        Some(bytes) => statuses_of(root, lossy_text(bytes)),
        None => Map::empty(),
    }
}

/// Whether the keys that lines of the output give a mark to have the bytes of the first
/// line that does.
pub open spec fn output_named(
    statuses: PathMap<char>,
    root: Seq<u8>,
    output: Option<Seq<u8>>,
) -> bool {
    match output {
        Some(bytes) => keys_named(statuses.entries(), root, lines_of(lossy_text(bytes))),
        None => true,
    }
}

/// The bytes of what a program printed, if it ran well.
pub open spec fn output_view(output: Option<&Vec<u8>>) -> Option<Seq<u8>> {
    match output {
        Some(bytes) => Some(bytes@),
        None => None,
    }
}

/// The tree of an explorer that was just opened.
pub open spec fn opened(path: Seq<u8>, is_dir: bool, disk: Disk) -> NodeView {
    loaded(NodeView { expanded: true, ..fresh(path, is_dir, 0) }, disk)
}

/// An explorer that was just opened.
pub open spec fn opened_explorer(
    path: Seq<u8>,
    is_dir: bool,
    disk: Disk,
    output: Option<Seq<u8>>,
) -> ExplorerView {
    ExplorerView {
        root: refreshed(opened(path, is_dir, disk), disk),
        cursor: 0,
        scroll_offset: 0,
        focused: true,
        git_statuses: output_statuses(path, output),
    }
}

/// What shows which paths are the last of their siblings.
pub open spec fn flag_views(flags: Seq<(TreePath, bool)>) -> Seq<(Seq<u8>, bool)> {
    flags.map_values(|f: (TreePath, bool)| (f.0.view(), f.1))
}

/// The values of a list of paths.
pub open spec fn path_views(paths: Seq<TreePath>) -> Seq<Seq<u8>> {
    paths.map_values(|p: TreePath| p.view())
}

impl ExplorerView {
    /// What is shown, from the top down.
    pub open spec fn items(self) -> Seq<NodeView> {
        flat(self.root)
    }

    /// The explorer after its tree and its marks were read again.
    pub open spec fn after_refresh(self, disk: Disk, output: Option<Seq<u8>>) -> ExplorerView {
        ExplorerView {
            root: refreshed(self.root, disk),
            git_statuses: output_statuses(self.root.path, output),
            ..self
        }
    }

    /// What holds of every explorer.
    pub open spec fn well_formed(self) -> bool {
        well_formed(self.root) && self.root.depth == 0
    }
}

impl TreeExplorer {
    pub closed spec fn view(&self) -> ExplorerView {
        ExplorerView {
            root: self.root@,
            cursor: self.cursor as nat,
            scroll_offset: self.scroll_offset as nat,
            focused: self.focused,
            git_statuses: self.git_statuses@,
        }
    }

    /// The map of the marks, with the bytes of its keys.
    pub closed spec fn status_map(&self) -> PathMap<char> {
        self.git_statuses
    }

    /// The root of the tree.
    pub fn root(&self) -> (root: &TreeNode)
        ensures
            root@ == self@.root,
    {
        &self.root
    }

    /// The position of the cursor among what is shown.
    pub fn cursor_index(&self) -> (index: usize)
        ensures
            index == self@.cursor,
    {
        self.cursor
    }

    /// How many of what is shown are above the first row.
    pub fn scroll_offset(&self) -> (scroll_offset: usize)
        ensures
            scroll_offset == self@.scroll_offset,
    {
        self.scroll_offset
    }

    /// Gives the focus to the explorer, or takes it away.
    pub fn set_focused(&mut self, focused: bool)
        ensures
            final(self)@ == (ExplorerView { focused, ..old(self)@ }),
            final(self).status_map() == old(self).status_map(),
    {
        self.focused = focused;
    }

    /// Opens the tree of a directory, with its root expanded. Comes to nothing if what
    /// `git status` printed cannot be read.
    pub fn new(root_path: TreePath, is_dir: bool, disk: &Snapshot, git_output: Option<&Vec<u8>>) -> (r:
        Option<TreeExplorer>)
        ensures
            r is Some <==> output_readable(output_view(git_output)),
            r matches Some(explorer) ==> explorer@ == (ExplorerView {
                root: refreshed(opened(root_path@, is_dir, disk@), disk@),
                cursor: 0,
                scroll_offset: 0,
                focused: true,
                git_statuses: output_statuses(root_path@, output_view(git_output)),
            }) && explorer@.well_formed() && output_named(
                explorer.status_map(),
                root_path@,
                output_view(git_output),
            ),
            r matches Some(explorer) ==> explorer@ == opened_explorer(
                root_path@,
                is_dir,
                disk@,
                output_view(git_output),
            ),
            names_plain(disk@),
            output_plain(output_view(git_output)),
            lossy_plain(naming_bytes(root_path@)),
    {
        let ghost path = root_path@;
        let mut root = TreeNode::new(root_path, is_dir, 0);
        proof {
            use_type_invariant(disk);
            let n = NodeView { expanded: true, ..fresh(path, is_dir, 0) };
            assert(well_formed(NodeView { expanded: false, ..n }));
            if is_dir {
                loaded_well_formed(n, disk@);
            }
        }
        root.expanded = true;
        root.load_children(disk);
        let mut explorer = TreeExplorer {
            root,
            cursor: 0,
            scroll_offset: 0,
            focused: true,
            git_statuses: PathMap::new(),
        };
        assert(explorer@.root == opened(path, is_dir, disk@));
        if explorer.refresh(disk, git_output) {
            Some(explorer)
        } else {
            None
        }
    }

    /// Reads the tree again, and the marks of its files. Does nothing if what `git status`
    /// printed cannot be read.
    pub fn refresh(&mut self, disk: &Snapshot, git_output: Option<&Vec<u8>>) -> (r: bool)
        requires
            old(self)@.well_formed(),
        ensures
            r == output_readable(output_view(git_output)),
            r ==> final(self)@ == (ExplorerView {
                root: refreshed(old(self)@.root, disk@),
                git_statuses: output_statuses(old(self)@.root.path, output_view(git_output)),
                ..old(self)@
            }),
            r ==> final(self)@ == old(self)@.after_refresh(disk@, output_view(git_output)),
            r ==> output_named(
                final(self).status_map(),
                old(self)@.root.path,
                output_view(git_output),
            ),
            !r ==> final(self)@ == old(self)@ && final(self).status_map() == old(
                self,
            ).status_map(),
            final(self)@.well_formed(),
            names_plain(disk@),
            output_plain(output_view(git_output)),
    {
        proof {
            use_type_invariant(disk);
        }
        match Self::get_git_statuses(&self.root.path, git_output) {
            Some(statuses) => {
                self.git_statuses = statuses;
                proof {
                    use_type_invariant(disk);
                    refreshed_well_formed(self.root@, disk@);
                    lemma_depths_fit(self.root@);
                }
                Self::refresh_node(&mut self.root, disk);
                true
            },
            None => false,
        }
    }

    /// Reads a directory again if it was read before, and what is below it.
    pub fn refresh_node(node: &mut TreeNode, disk: &Snapshot)
        requires
            old(node).is_dir && old(node).children_loaded ==> depths_fit(
                old(node)@.depth,
                old(node)@.path,
                old(node)@.children,
            ),
        ensures
            final(node)@ == refreshed(old(node)@, disk@),
            names_plain(disk@),
    {
        proof {
            use_type_invariant(disk);
        }
        if node.is_dir && node.children_loaded && disk.listing(&node.path).is_some() {
            let children = reread_children(&node.path, node.depth, &node.children, disk);
            node.children = children;
        }
    }

    /// The marks in what `git status --porcelain` printed, or none where it did not run
    /// well. Comes to nothing if a line's path does not begin between two characters.
    pub fn get_git_statuses(repo_root: &TreePath, git_output: Option<&Vec<u8>>) -> (r: Option<
        PathMap<char>,
    >)
        ensures
            r is Some <==> output_readable(output_view(git_output)),
            r matches Some(statuses) ==> statuses@ == output_statuses(
                repo_root@,
                output_view(git_output),
            ) && output_named(statuses, repo_root@, output_view(git_output)),
            output_plain(output_view(git_output)),
    {
        match git_output {
            None => Some(PathMap::new()),
            Some(bytes) => {
                let text = decode_lossy(bytes);
                if status_divides(text.as_str()) {
                    Some(read_statuses(repo_root, text.as_str()))
                } else {
                    None
                }
            },
        }
    }

    /// What is shown, from the top down.
    pub fn visible_items(&self) -> (r: Vec<&TreeNode>)
        ensures
            ref_views(r@) == self@.items(),
    {
        self.root.flatten()
    }

    /// Expands or collapses the first directory of a path that is shown.
    pub fn toggle_node_at_path(&mut self, target: &TreePath, disk: &Snapshot)
        requires
            old(self)@.well_formed(),
        ensures
            final(self)@ == (ExplorerView {
                root: toggled_at(old(self)@.root, target@, disk@),
                ..old(self)@
            }),
            final(self).status_map() == old(self).status_map(),
            final(self)@.well_formed(),
            names_plain(disk@),
    {
        proof {
            use_type_invariant(disk);
            toggled_at_well_formed(self.root@, target@, disk@);
            toggled_at_identity(self.root@, target@, disk@);
            if shows(self.root@, target@) {
                lemma_shown_at(self.root@, target@);
                lemma_first_at(flat(self.root@), target@);
                shown_below(self.root@, first_at(flat(self.root@), target@));
            }
        }
        Self::toggle_recursive(&mut self.root, target, disk);
    }

    /// Toggles the first node of a path that is shown for a node, and says whether there
    /// is one.
    pub fn toggle_recursive(node: &mut TreeNode, target: &TreePath, disk: &Snapshot) -> (found: bool)
        requires
            target_fits(old(node)@, target@),
        ensures
            final(node)@ == toggled_at(old(node)@, target@, disk@),
            found == shows(old(node)@, target@),
            names_plain(disk@),
        decreases *old(node),
    {
        let ghost n = node@;
        proof {
            use_type_invariant(disk);
            lemma_shows(n, target@);
            lemma_first_showing(n.children, target@);
        }
        if node.path.same(target) {
            proof {
                lemma_shown_at(n, target@);
                lemma_first_at(flat(n), target@);
                assert(flat(n)[0] == n);
            }
            node.toggle(disk);
            return true;
        }
        if node.expanded {
            let mut i: usize = 0;
            while i < node.children.len()
                invariant
                    n == old(node)@,
                    node@ == n,
                    names_plain(disk@),
                    target_fits(n, target@),
                    n.expanded,
                    !same_path(n.path, target@),
                    i <= node.children@.len() == old(node).children@.len(),
                    forall|j: int|
                        i <= j < node.children@.len() ==> node.children@[j] == old(node).children@[j],
                    forall|j: int| 0 <= j < i ==> !shows(#[trigger] n.children[j], target@),
                decreases node.children@.len() - i,
            {
                let ghost before = node.children@;
                let ghost child = n.children[i as int];
                assert(child == node.children@[i as int]@);
                proof {
                    lemma_first_child(n, target@, i as int);
                }
                let found = Self::toggle_recursive(&mut node.children[i], target, disk);
                assert(views(node.children@) =~= n.children.update(
                    i as int,
                    toggled_at(child, target@, disk@),
                ));
                if found {
                    proof {
                        lemma_first_showing(n.children, target@);
                        lemma_shows(n, target@);
                        assert(shows(n.children[i as int], target@));
                        let k = first_showing(n.children, target@);
                        assert(k == i) by {
                            if k < i {
                                assert(!shows(n.children[k], target@));
                            }
                        }
                    }
                    return true;
                }
                proof {
                    toggled_at_unshown(child, target@, disk@);
                    assert(views(node.children@) =~= n.children);
                }
                i = i + 1;
            }
            proof {
                lemma_shows(n, target@);
                lemma_first_showing(n.children, target@);
            }
        }
        false
    }

    /// Which of what is shown are the last of their siblings, in the order in which they
    /// are shown.
    pub fn get_is_last_map(node: &TreeNode) -> (flags: Vec<(TreePath, bool)>)
        ensures
            flag_views(flags@) == tree_last_flags(node@),
    {
        let mut flags: Vec<(TreePath, bool)> = Vec::new();
        flags.push((node.path.clone(), true));
        assert(flag_views(flags@) =~= seq![(node@.path, true)]);
        if node.expanded {
            Self::collect_last_info(node, &mut flags);
        }
        flags
    }

    /// Adds what is shown below a node, with whether each is the last of its siblings.
    pub fn collect_last_info(parent: &TreeNode, flags: &mut Vec<(TreePath, bool)>)
        ensures
            flag_views(final(flags)@) == flag_views(old(flags)@) + last_flags(
                parent@.children,
                parent@.children.len() as int,
            ),
        decreases parent,
    {
        let ghost all = parent@.children;
        let ghost start = flag_views(flags@);
        let count = parent.children.len();
        let mut i: usize = 0;
        assert(start + last_flags(all, 0) =~= start);
        while i < count
            invariant
                i <= count == parent.children@.len(),
                all == views(parent.children@),
                flag_views(flags@) == start + last_flags(all, i as int),
            decreases count - i,
        {
            let child = &parent.children[i];
            assert(child@ == all[i as int]);
            let is_last = i == count - 1;
            let ghost before = flags@;
            flags.push((child.path.clone(), is_last));
            assert(flag_views(flags@) =~= flag_views(before).push((child@.path, is_last)));
            if child.expanded {
                Self::collect_last_info(child, flags);
            }
            i = i + 1;
            assert(flag_views(flags@) =~= start + last_flags(all, i as int));
        }
    }

    /// The directories that have to be read before the tree is read again.
    pub fn dirs_to_read(&self) -> (dirs: Vec<TreePath>)
        ensures
            path_views(dirs@) == to_read(self@.root),
    {
        let mut dirs: Vec<TreePath> = Vec::new();
        if self.root.is_dir && self.root.children_loaded {
            dirs.push(self.root.path.clone());
            assert(path_views(dirs@) =~= seq![self@.root.path]);
            collect_read(&self.root.children, &mut dirs);
        }
        assert(path_views(dirs@) =~= to_read(self@.root));
        dirs
    }
}

/// Adds the directories among a list of siblings, and below them, that were read before.
fn collect_read(nodes: &Vec<TreeNode>, dirs: &mut Vec<TreePath>)
    ensures
        path_views(final(dirs)@) == path_views(old(dirs)@) + read_before(views(nodes@)),
    decreases nodes,
{
    let ghost all = views(nodes@);
    let ghost start = path_views(dirs@);
    let mut i: usize = 0;
    assert(start + read_before(all.take(0)) =~= start);
    while i < nodes.len()
        invariant
            i <= nodes@.len(),
            all == views(nodes@),
            path_views(dirs@) == start + read_before(all.take(i as int)),
        decreases nodes@.len() - i,
    {
        let node = &nodes[i];
        proof {
            assert(node@ == all[i as int]);
            assert(all.take(i + 1).drop_last() =~= all.take(i as int));
            assert(all.take(i + 1).last() == node@);
        }
        if node.expanded || node.children_loaded {
            let ghost before = dirs@;
            dirs.push(node.path.clone());
            assert(path_views(dirs@) =~= path_views(before).push(node@.path));
            collect_read(&node.children, dirs);
        }
        i = i + 1;
        assert(path_views(dirs@) =~= start + read_before(all.take(i as int)));
    }
    assert(all.take(i as int) =~= all);
}

}
