//! The mathematical model of the tree: what it holds, what it shows, and what each
//! operation makes of it.

use vstd::prelude::*;

use crate::listing::{Disk, EntryView};
use crate::path::{components_of, file_name_of, join_of, same_path};
use crate::text::{lossy_text, lowercase_text, text_less};

verus! {

/// A node of the tree and all that is below it.
pub struct NodeView {
    pub path: Seq<u8>,
    pub name: Seq<char>,
    pub is_dir: bool,
    pub depth: nat,
    pub expanded: bool,
    pub children: Seq<NodeView>,
    pub children_loaded: bool,
}

/// Whether an entry of this name is left out: hidden files, and directories that hold
/// what tools have made.
pub open spec fn ignored(name: Seq<char>) -> bool {
    ||| name.len() > 0 && name[0] == '.'
    ||| name == "node_modules"@
    ||| name == "target"@
    ||| name == "__pycache__"@
}

/// The bytes that name a path: its file name, or all of it where it has none.
pub open spec fn naming_bytes(path: Seq<u8>) -> Seq<u8> {
    match file_name_of(path) {
        Some(name) => name,
        None => path,
    }
}

/// The name under which a path is shown.
pub open spec fn display_name(path: Seq<u8>) -> Seq<char> {
    lossy_text(naming_bytes(path))
}

/// A node that was neither expanded nor read.
pub open spec fn fresh(path: Seq<u8>, is_dir: bool, depth: nat) -> NodeView {
    NodeView {
        path,
        name: display_name(path),
        is_dir,
        depth,
        expanded: false,
        children: seq![],
        children_loaded: false,
    }
}

/// Whether one sibling goes before another, by their kinds and their names in lower case:
/// directories go before files, and then names in the order of their characters.
pub open spec fn key_before(a_dir: bool, a: Seq<char>, b_dir: bool, b: Seq<char>) -> bool {
    if a_dir == b_dir {
        text_less(a, b)
    } else {
        a_dir
    }
}

/// Whether one sibling goes before another.
pub open spec fn node_before(a: NodeView, b: NodeView) -> bool {
    key_before(a.is_dir, lowercase_text(a.name), b.is_dir, lowercase_text(b.name))
}

/// Whether no sibling goes before one that stands ahead of it.
pub open spec fn ordered(nodes: Seq<NodeView>) -> bool {
    forall|i: int, j: int|
        0 <= i < j < nodes.len() ==> !node_before(#[trigger] nodes[j], #[trigger] nodes[i])
}

/// Ordered siblings with one more, ahead of all that do not go before it.
pub open spec fn placed(x: NodeView, nodes: Seq<NodeView>) -> Seq<NodeView>
    decreases nodes.len(),
{
    if nodes.len() == 0 || !node_before(nodes[0], x) {
        seq![x] + nodes
    } else {
        seq![nodes[0]] + placed(x, nodes.drop_first())
    }
}

/// Siblings in their order; those of which neither goes before the other stay as they
/// were.
pub open spec fn sorted(nodes: Seq<NodeView>) -> Seq<NodeView>
    decreases nodes.len(),
{
    if nodes.len() == 0 {
        seq![]
    } else {
        placed(nodes[0], sorted(nodes.drop_first()))
    }
}

/// The entries that are not left out.
pub open spec fn kept(entries: Seq<EntryView>) -> Seq<EntryView> {
    entries.filter(|e: EntryView| !ignored(lossy_text(e.name)))
}

/// New nodes for entries of a directory, at a depth.
pub open spec fn nodes_for(dir: Seq<u8>, depth: nat, entries: Seq<EntryView>) -> Seq<NodeView> {
    entries.map_values(|e: EntryView| fresh(join_of(dir, e.name), e.is_dir, depth))
}

/// The children that a directory gets when its entries are read.
pub open spec fn listed(dir: Seq<u8>, depth: nat, entries: Seq<EntryView>) -> Seq<NodeView> {
    sorted(nodes_for(dir, depth, kept(entries)))
}

/// A node after its children were loaded. Files have none, and a directory's are read
/// once; where it cannot be read it counts as read all the same.
pub open spec fn loaded(n: NodeView, disk: Disk) -> NodeView {
    let key = components_of(n.path);
    if n.children_loaded || !n.is_dir {
        n
    } else if disk.contains_key(key) {
        NodeView { children: listed(n.path, n.depth + 1, disk[key]), children_loaded: true, ..n }
    } else {
        NodeView { children_loaded: true, ..n }
    }
}

/// A node after it was toggled: a directory is expanded, and then loaded, or collapsed.
pub open spec fn toggled(n: NodeView, disk: Disk) -> NodeView {
    if !n.is_dir {
        n
    } else if n.expanded {
        NodeView { expanded: false, ..n }
    } else {
        loaded(NodeView { expanded: true, ..n }, disk)
    }
}

/// The nodes that are shown for a node: the node itself, and below an expanded one all
/// that is shown for its children.
pub open spec fn flat(n: NodeView) -> Seq<NodeView>
    decreases n,
{
    if n.expanded {
        seq![n] + flat_all(n.children)
    } else {
        seq![n]
    }
}

/// The nodes that are shown for a list of siblings.
pub open spec fn flat_all(nodes: Seq<NodeView>) -> Seq<NodeView>
    decreases nodes,
{
    if nodes.len() == 0 {
        seq![]
    } else {
        flat_all(nodes.drop_last()) + flat(nodes.last())
    }
}

/// The first position of a path in a list of nodes, or the list's length.
pub open spec fn first_at(nodes: Seq<NodeView>, path: Seq<u8>) -> int
    decreases nodes.len(),
{
    if nodes.len() == 0 || same_path(nodes[0].path, path) {
        0
    } else {
        1 + first_at(nodes.drop_first(), path)
    }
}

/// Whether a path is shown for a node.
pub open spec fn shows(n: NodeView, path: Seq<u8>) -> bool {
    exists|i: int| 0 <= i < flat(n).len() && same_path((#[trigger] flat(n)[i]).path, path)
}

/// The first of a list of siblings for which a path is shown, or the list's length.
pub open spec fn first_showing(nodes: Seq<NodeView>, path: Seq<u8>) -> int
    decreases nodes.len(),
{
    if nodes.len() == 0 || shows(nodes[0], path) {
        0
    } else {
        1 + first_showing(nodes.drop_first(), path)
    }
}

/// A tree after the first shown node of a path was toggled; a tree that does not show
/// the path stays as it is.
pub open spec fn toggled_at(n: NodeView, path: Seq<u8>, disk: Disk) -> NodeView
    decreases n,
{
    let k = first_showing(n.children, path);
    if same_path(n.path, path) {
        toggled(n, disk)
    } else if n.expanded && 0 <= k < n.children.len() {
        NodeView {
            children: n.children.update(k, toggled_at(n.children[k], path, disk)),
            ..n
        }
    } else {
        n
    }
}

/// A newly read child, after it took over what was known of its path and was read again
/// in turn.
pub open spec fn carried(leaf: NodeView, former: Seq<NodeView>, disk: Disk) -> NodeView
    decreases former, 0int,
{
    let k = first_at(former, leaf.path);
    if 0 <= k < former.len() {
        let known = NodeView {
            expanded: former[k].expanded,
            children_loaded: former[k].children_loaded,
            children: former[k].children,
            ..leaf
        };
        if known.expanded && !known.children_loaded {
            loaded(known, disk)
        } else if known.is_dir && known.children_loaded && disk.contains_key(
            components_of(known.path),
        ) {
            NodeView {
                children: reread(known.path, known.depth, former[k].children, disk),
                ..known
            }
        } else {
            known
        }
    } else {
        leaf
    }
}

/// The children of a directory after it was read again: those that its entries call
/// for, each with what was known of it.
pub open spec fn reread(dir: Seq<u8>, depth: nat, former: Seq<NodeView>, disk: Disk) -> Seq<NodeView>
    decreases former, 1int,
{
    let leaves = listed(dir, depth + 1, disk[components_of(dir)]);
    Seq::new(leaves.len(), |i: int| carried(leaves[i], former, disk))
}

/// A tree after it was read again from the disk. Only directories that were read before
/// are; one that cannot be read now stays as it is, and so does all below it.
pub open spec fn refreshed(n: NodeView, disk: Disk) -> NodeView {
    if n.is_dir && n.children_loaded && disk.contains_key(components_of(n.path)) {
        NodeView { children: reread(n.path, n.depth, n.children, disk), ..n }
    } else {
        n
    }
}

/// The directories among a list of siblings, and below them, that were read before.
pub open spec fn read_before(nodes: Seq<NodeView>) -> Seq<Seq<u8>>
    decreases nodes,
{
    if nodes.len() == 0 {
        seq![]
    } else {
        let last = nodes.last();
        read_before(nodes.drop_last()) + if last.expanded || last.children_loaded {
            seq![last.path] + read_before(last.children)
        } else {
            seq![]
        }
    }
}

/// The directories to read before a tree is read again.
pub open spec fn to_read(n: NodeView) -> Seq<Seq<u8>> {
    if n.is_dir && n.children_loaded {
        seq![n.path] + read_before(n.children)
    } else {
        seq![]
    }
}

/// Whether a node is a proper child of a directory at a depth.
pub open spec fn child_of(child: NodeView, dir: Seq<u8>, depth: nat) -> bool {
    &&& child.depth == depth + 1
    &&& !ignored(child.name)
    &&& file_name_of(child.path) matches Some(name) && child.path == join_of(dir, name)
}

/// What holds of every node of a tree: it bears the name of its path, its depth counts
/// components, it has children only once they were read, and what is expanded was read,
/// but for a root that is no directory.
/// The children are in their order, none of them is one that is left out, and each lies
/// in the directory above it.
pub open spec fn well_formed(n: NodeView) -> bool
    decreases n,
{
    &&& n.name == display_name(n.path)
    &&& n.depth <= components_of(n.path).len()
    &&& !n.children_loaded ==> n.children.len() == 0
    &&& n.expanded && (n.is_dir || n.depth > 0) ==> n.children_loaded
    &&& ordered(n.children)
    &&& forall|i: int|
        0 <= i < n.children.len() ==> child_of(#[trigger] n.children[i], n.path, n.depth)
            && well_formed(n.children[i])
}

/// For the first `k` of a list of siblings, and for all that is shown below them: each
/// path, and whether it is the last of its siblings.
pub open spec fn last_flags(nodes: Seq<NodeView>, k: int) -> Seq<(Seq<u8>, bool)>
    decreases nodes, k,
{
    if k <= 0 || k > nodes.len() {
        seq![]
    } else {
        let node = nodes[k - 1];
        last_flags(nodes, k - 1).push((node.path, k == nodes.len())) + if node.expanded {
            last_flags(node.children, node.children.len() as int)
        } else {
            seq![]
        }
    }
}

/// For all that is shown of a tree: each path, and whether it is the last of its
/// siblings. The root counts as the last.
pub open spec fn tree_last_flags(n: NodeView) -> Seq<(Seq<u8>, bool)> {
    if n.expanded {
        seq![(n.path, true)] + last_flags(n.children, n.children.len() as int)
    } else {
        seq![(n.path, true)]
    }
}

}
