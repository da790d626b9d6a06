//! The nodes of the tree.

use vstd::prelude::*;
use vstd::utf8::*;

use crate::listing::{entry_views, names_plain, DirEntry, EntryView, Snapshot};
use crate::order::sort_nodes;
use crate::path::{components_of, entry_path, TreePath};
use crate::shape::lemma_sorted_from;
use crate::text::{decode_lossy, lossy_plain, lossy_text, lowercase_plain, same_text, to_chars};
use crate::tree::{
    flat, flat_all, fresh, ignored, listed, loaded, naming_bytes, nodes_for, toggled, NodeView,
};

verus! {

/// A file or a directory that the tree may show.
#[derive(Debug)]
pub struct TreeNode {
    pub path: TreePath,
    /// The name under which the node is shown.
    pub name: String,
    pub is_dir: bool,
    /// How far the node is below the root.
    pub depth: usize,
    /// Whether the node's children are shown.
    pub expanded: bool,
    pub children: Vec<TreeNode>,
    /// Whether the node's children were read.
    pub children_loaded: bool,
}

/// The values of a list of nodes.
pub open spec fn views(nodes: Seq<TreeNode>) -> Seq<NodeView>
    decreases nodes,
{
    Seq::new(
        nodes.len(),
        |i: int|
            if 0 <= i < nodes.len() {
                nodes[i].view()
            } else {
                arbitrary()
            },
    )
}

/// The values of a list of references to nodes.
pub open spec fn ref_views(nodes: Seq<&TreeNode>) -> Seq<NodeView> {
    nodes.map_values(|n: &TreeNode| n.view())
}

/// Whether the depth of a node leaves room for that of its children. It always does where
/// it counts components of the node's path, since the children's paths are longer.
pub open spec fn depth_fits(depth: nat, path: Seq<u8>) -> bool {
    depth < usize::MAX || depth <= components_of(path).len()
}

/// Whether the depths of a directory, and of those below it that are read again with it,
/// leave room for those of their children.
pub open spec fn depths_fit(depth: nat, path: Seq<u8>, children: Seq<NodeView>) -> bool
    decreases children,
{
    &&& depth_fits(depth, path)
    &&& forall|i: int|
        0 <= i < children.len() && ((#[trigger] children[i]).expanded
            || children[i].children_loaded) ==> depths_fit(
            depth + 1,
            children[i].path,
            children[i].children,
        )
}

impl TreeNode {
    pub open spec fn view(&self) -> NodeView
        decreases self,
    {
        NodeView {
            path: self.path@,
            name: self.name@,
            is_dir: self.is_dir,
            depth: self.depth as nat,
            expanded: self.expanded,
            children: views(self.children@),
            children_loaded: self.children_loaded,
        }
    }

    /// A node that is neither expanded nor read. It is shown under its file name, or
    /// under all of its path where it has none; what is valid UTF-8 of these is shown as it
    /// is.
    pub fn new(path: TreePath, is_dir: bool, depth: usize) -> (node: TreeNode)
        ensures
            node@ == fresh(path@, is_dir, depth as nat),
            valid_utf8(naming_bytes(path@)) ==> node@.name == decode_utf8(naming_bytes(path@)),
            lossy_plain(naming_bytes(path@)),
    {
        let name = match path.file_name() {
            Some(name) => decode_lossy(name),
            None => decode_lossy(path.text()),
        };
        let node = TreeNode {
            path,
            name,
            is_dir,
            depth,
            expanded: false,
            children: Vec::new(),
            children_loaded: false,
        };
        assert(node@.children =~= seq![]);
        node
    }

    /// Reads the children of a directory from what was read of the disk, unless that was
    /// done before.
    pub fn load_children(&mut self, disk: &Snapshot)
        requires
            old(self).is_dir && !old(self).children_loaded ==> depth_fits(
                old(self)@.depth,
                old(self)@.path,
            ),
        ensures
            final(self)@ == loaded(old(self)@, disk@),
            !old(self).children_loaded && old(self).is_dir && disk@.contains_key(
                components_of(old(self)@.path),
            ) ==> forall|i: int|
                0 <= i < final(self)@.children.len() ==> lowercase_plain(
                    (#[trigger] final(self)@.children[i]).name,
                ),
            names_plain(disk@),
    {
        proof {
            use_type_invariant(disk);
        }
        if self.children_loaded || !self.is_dir {
            return;
        }
        self.children_loaded = true;
        match disk.listing(&self.path) {
            None => {},
            Some(entries) => {
                self.children = list_children(&self.path, self.depth, entries);
            },
        }
    }

    /// Expands a directory, and loads its children, or collapses it. Does nothing to a
    /// file.
    pub fn toggle(&mut self, disk: &Snapshot)
        requires
            old(self).is_dir && !old(self).expanded && !old(self).children_loaded ==> depth_fits(
                old(self)@.depth,
                old(self)@.path,
            ),
        ensures
            final(self)@ == toggled(old(self)@, disk@),
            names_plain(disk@),
    {
        proof {
            use_type_invariant(disk);
        }
        if self.is_dir {
            self.expanded = !self.expanded;
            if self.expanded {
                self.load_children(disk);
            }
        }
    }

    /// The nodes that are shown for this one, from the top down.
    pub fn flatten(&self) -> (r: Vec<&TreeNode>)
        ensures
            ref_views(r@) == flat(self@),
        decreases self,
    {
        let mut r: Vec<&TreeNode> = Vec::new();
        r.push(self);
        assert(ref_views(r@) =~= seq![self@]);
        if self.expanded {
            let ghost all = self@.children;
            let mut i: usize = 0;
            assert(flat_all(all.take(0)) =~= seq![]);
            assert(ref_views(r@) =~= seq![self@] + flat_all(all.take(0)));
            while i < self.children.len()
                invariant
                    i <= self.children@.len(),
                    all == views(self.children@),
                    ref_views(r@) == seq![self@] + flat_all(all.take(i as int)),
                decreases self.children@.len() - i,
            {
                let ghost shown = r@;
                let mut below = self.children[i].flatten();
                let ghost more = below@;
                r.append(&mut below);
                proof {
                    assert(r@ =~= shown + more);
                    assert(ref_views(r@) =~= ref_views(shown) + ref_views(more));
                    assert(all.take(i + 1).drop_last() =~= all.take(i as int));
                    assert(all.take(i + 1).last() == self.children@[i as int]@);
                    assert(ref_views(r@) =~= seq![self@] + flat_all(all.take(i + 1)));
                }
                i = i + 1;
            }
            assert(all.take(i as int) =~= all);
        }
        r
    }
}

impl Clone for TreeNode {
    fn clone(&self) -> (node: TreeNode)
        ensures
            node@ == self@,
        decreases self,
    {
        let mut children: Vec<TreeNode> = Vec::new();
        let mut i: usize = 0;
        while i < self.children.len()
            invariant
                i <= self.children@.len(),
                children@.len() == i,
                forall|j: int| 0 <= j < i ==> (#[trigger] children@[j])@ == self.children@[j]@,
            decreases self.children@.len() - i,
        {
            let child = self.children[i].clone();
            children.push(child);
            i = i + 1;
        }
        let node = TreeNode {
            path: self.path.clone(),
            name: self.name.clone(),
            is_dir: self.is_dir,
            depth: self.depth,
            expanded: self.expanded,
            children,
            children_loaded: self.children_loaded,
        };
        assert(node@.children =~= self@.children);
        node
    }
}

/// Whether an entry of this name is left out.
pub fn is_ignored(name: &str) -> (r: bool)
    ensures
        r == ignored(name@),
{
    let chars = to_chars(name);
    (chars.len() > 0 && chars[0] == '.') || same_text(name, "node_modules") || same_text(
        name,
        "target",
    ) || same_text(name, "__pycache__")
}

/// The children of a directory at a depth, from its entries: those that are not left
/// out, in their order.
pub fn list_children(dir: &TreePath, depth: usize, entries: &Vec<DirEntry>) -> (r: Vec<TreeNode>)
    requires
        depth_fits(depth as nat, dir@),
    ensures
        views(r@) == listed(dir@, depth as nat + 1, entry_views(entries@)),
        forall|i: int| 0 <= i < r@.len() ==> lowercase_plain((#[trigger] views(r@)[i]).name),
        forall|i: int| 0 <= i < entries@.len() ==> lossy_plain((#[trigger] entries@[i])@.name),
{
    let ghost all = entry_views(entries@);
    let ghost f = |e: EntryView| !ignored(lossy_text(e.name));
    let ghost below = depth as nat + 1;
    let mut nodes: Vec<TreeNode> = Vec::new();
    let mut i: usize = 0;
    proof {
        reveal(Seq::filter);
        assert(all.take(0).filter(f) =~= seq![]);
        assert(views(nodes@) =~= nodes_for(dir@, below, all.take(0).filter(f)));
    }
    while i < entries.len()
        invariant
            i <= entries@.len(),
            all == entry_views(entries@),
            f == (|e: EntryView| !ignored(lossy_text(e.name))),
            below == depth as nat + 1,
            depth_fits(depth as nat, dir@),
            views(nodes@) == nodes_for(dir@, below, all.take(i as int).filter(f)),
            forall|j: int| 0 <= j < i ==> lossy_plain((#[trigger] entries@[j])@.name),
        decreases entries@.len() - i,
    {
        let name = entries[i].name();
        let ghost e = all[i as int];
        proof {
            assert(e == entries@[i as int]@);
            assert(all.take(i + 1) =~= all.take(i as int).push(e));
            all.take(i as int).lemma_filter_push(e, f);
        }
        if !is_ignored(entries[i].shown_name()) {
            let path = dir.join(name);
            proof {
                entry_path(dir@, name@);
            }
            let steps = path.components().len();
            assert(steps == components_of(path@).len());
            let ghost before = nodes@;
            let node = TreeNode::new(path, entries[i].is_dir(), depth + 1);
            nodes.push(node);
            proof {
                assert(views(nodes@) =~= views(before).push(node@));
                assert(nodes_for(dir@, below, all.take(i as int).filter(f).push(e)) =~= nodes_for(
                    dir@,
                    below,
                    all.take(i as int).filter(f),
                ).push(node@));
            }
        }
        i = i + 1;
    }
    assert(all.take(i as int) =~= all);
    let ghost unsorted = views(nodes@);
    let r = sort_nodes(nodes);
    proof {
        assert forall|i: int| 0 <= i < r@.len() implies lowercase_plain(
            (#[trigger] views(r@)[i]).name,
        ) by {
            let j = lemma_sorted_from(unsorted, i);
            assert(lowercase_plain(unsorted[j].name));
        }
    }
    r
}

}
