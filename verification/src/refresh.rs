//! Reading the tree again.

use vstd::prelude::*;

use crate::listing::Snapshot;
use crate::node::{depth_fits, depths_fit, list_children, views, TreeNode};
use crate::path::{components_of, same_path, TreePath};
use crate::shape::lemma_listed_from;
use crate::tree::{carried, first_at, reread, NodeView};

verus! {

/// The first position at which a list of nodes has the path.
pub proof fn lemma_first_at(nodes: Seq<NodeView>, path: Seq<u8>)
    ensures
        0 <= first_at(nodes, path) <= nodes.len(),
        forall|i: int|
            0 <= i < first_at(nodes, path) ==> !same_path((#[trigger] nodes[i]).path, path),
        first_at(nodes, path) < nodes.len() ==> same_path(
            nodes[first_at(nodes, path)].path,
            path,
        ),
    decreases nodes.len(),
{
    if nodes.len() > 0 && !same_path(nodes[0].path, path) {
        let rest = nodes.drop_first();
        lemma_first_at(rest, path);
        assert forall|i: int| 0 <= i < first_at(nodes, path) implies !same_path(
            (#[trigger] nodes[i]).path,
            path,
        ) by {
            if i > 0 {
                assert(rest[i - 1] == nodes[i]);
            }
        }
    }
}

/// The first of a list of nodes that has a path.
pub fn find_path(nodes: &Vec<TreeNode>, path: &TreePath) -> (r: usize)
    ensures
        r == first_at(views(nodes@), path@),
{
    let ghost all = views(nodes@);
    proof {
        lemma_first_at(all, path@);
    }
    let mut i: usize = 0;
    while i < nodes.len() && !nodes[i].path.same(path)
        invariant
            i <= nodes@.len(),
            all == views(nodes@),
            forall|j: int| 0 <= j < i ==> !same_path((#[trigger] all[j]).path, path@),
        decreases nodes@.len() - i,
    {
        assert(all[i as int] == nodes@[i as int]@);
        i = i + 1;
    }
    proof {
        if i < nodes@.len() {
            assert(all[i as int] == nodes@[i as int]@);
        }
    }
    i
}

/// Whether depths fit does not depend on the bytes of a path.
proof fn lemma_depths_fit_same(depth: nat, path: Seq<u8>, other: Seq<u8>, children: Seq<NodeView>)
    requires
        depths_fit(depth, path, children),
        same_path(path, other),
    ensures
        depth_fits(depth, other),
        depths_fit(depth, other, children),
{
    assert forall|i: int|
        0 <= i < children.len() && ((#[trigger] children[i]).expanded
            || children[i].children_loaded) implies depths_fit(
        depth + 1,
        children[i].path,
        children[i].children,
    ) by {}
}

/// The children of a directory after it was read again. A child that was known before
/// stays expanded or collapsed, and is read again in turn if it was read before.
pub fn reread_children(
    dir: &TreePath,
    depth: usize,
    former: &Vec<TreeNode>,
    disk: &Snapshot,
) -> (children: Vec<TreeNode>)
    requires
        depths_fit(depth as nat, dir@, views(former@)),
        disk@.contains_key(components_of(dir@)),
    ensures
        views(children@) == reread(dir@, depth as nat, views(former@), disk@),
    decreases former,
{
    let entries = match disk.listing(dir) {
        Some(entries) => entries,
        None => {
            return Vec::new();
        },
    };
    let mut children = list_children(dir, depth, entries);
    let ghost leaves = views(children@);
    let ghost known = views(former@);
    proof {
        assert forall|j: int| 0 <= j < leaves.len() implies (#[trigger] leaves[j]).depth == depth
            + 1 by {
            let e = lemma_listed_from(dir@, depth as nat + 1, disk@[components_of(dir@)], j);
        }
    }
    let mut i: usize = 0;
    while i < children.len()
        invariant
            i <= children@.len() == leaves.len(),
            known == views(former@),
            depths_fit(depth as nat, dir@, known),
            forall|j: int| 0 <= j < leaves.len() ==> (#[trigger] leaves[j]).depth == depth + 1,
            forall|j: int|
                0 <= j < i ==> (#[trigger] children@[j])@ == carried(leaves[j], known, disk@),
            forall|j: int| i <= j < leaves.len() ==> (#[trigger] children@[j])@ == leaves[j],
        decreases children@.len() - i,
    {
        let ghost leaf = leaves[i as int];
        assert(children@[i as int]@ == leaf);
        let k = find_path(former, &children[i].path);
        proof {
            lemma_first_at(known, leaf.path);
        }
        if k < former.len() {
            let ghost was = known[k as int];
            assert(was == former@[k as int]@);
            proof {
                if was.expanded || was.children_loaded {
                    assert(depths_fit(depth as nat + 1, was.path, was.children));
                    lemma_depths_fit_same(depth as nat + 1, was.path, leaf.path, was.children);
                }
            }
            children[i].expanded = former[k].expanded;
            children[i].children_loaded = former[k].children_loaded;
            if former[k].expanded && !former[k].children_loaded {
                children[i].children = former[k].children.clone();
                assert(views(children@[i as int].children@) =~= was.children);
                children[i].load_children(disk);
            } else if children[i].is_dir && former[k].children_loaded && disk.listing(
                &children[i].path,
            ).is_some() {
                let below = reread_children(
                    &children[i].path,
                    children[i].depth,
                    &former[k].children,
                    disk,
                );
                children[i].children = below;
            } else {
                children[i].children = former[k].children.clone();
                assert(views(children@[i as int].children@) =~= was.children);
            }
        }
        assert(children@[i as int]@ == carried(leaf, known, disk@));
        i = i + 1;
    }
    assert(views(children@) =~= reread(dir@, depth as nat, known, disk@));
    children
}

}
