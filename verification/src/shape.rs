//! What every operation keeps of the tree's shape.

use vstd::prelude::*;

use crate::listing::{names_valid, Disk, EntryView};
use crate::node::depths_fit;
use crate::order::{lemma_placed, sorted_is_ordered};
use crate::path::{
    components_of, components_shape, entry_path, file_name_of, join_of, same_path, valid_name,
    Step,
};
use crate::refresh::lemma_first_at;
use crate::text::lossy_text;
use crate::tree::{
    carried, child_of, first_at, first_showing, flat, flat_all, fresh, ignored, kept, listed,
    loaded, node_before, nodes_for, ordered, refreshed, reread, shows, sorted, toggled, toggled_at,
    well_formed, NodeView,
};

verus! {

/// Every sorted node is one of those that were sorted.
pub proof fn lemma_sorted_from(nodes: Seq<NodeView>, i: int) -> (j: int)
    requires
        0 <= i < sorted(nodes).len(),
    ensures
        0 <= j < nodes.len(),
        sorted(nodes)[i] == nodes[j],
    decreases nodes.len(),
{
    let rest = nodes.drop_first();
    let p = lemma_placed(nodes[0], sorted(rest));
    if i == p {
        0
    } else {
        let k = lemma_sorted_from(
            rest,
            if i < p {
                i
            } else {
                i - 1
            },
        );
        k + 1
    }
}

/// Every listed child is a new node for an entry that is not left out.
pub proof fn lemma_listed_from(dir: Seq<u8>, depth: nat, entries: Seq<EntryView>, i: int) -> (e:
    EntryView)
    requires
        0 <= i < listed(dir, depth, entries).len(),
    ensures
        entries.contains(e),
        !ignored(lossy_text(e.name)),
        listed(dir, depth, entries)[i] == fresh(join_of(dir, e.name), e.is_dir, depth),
{
    let f = |e: EntryView| !ignored(lossy_text(e.name));
    let j = lemma_sorted_from(nodes_for(dir, depth, kept(entries)), i);
    let e = kept(entries)[j];
    entries.lemma_filter_pred(f, j);
    assert(entries.filter(f).contains(e));
    entries.lemma_filter_contains_rev(f, e);
    e
}

/// The children that a directory gets are proper ones, and in their order.
pub proof fn listed_well_formed(dir: Seq<u8>, depth: nat, entries: Seq<EntryView>)
    requires
        depth <= components_of(dir).len(),
        forall|i: int| 0 <= i < entries.len() ==> valid_name((#[trigger] entries[i]).name),
    ensures
        ordered(listed(dir, depth + 1, entries)),
        forall|i: int|
            0 <= i < listed(dir, depth + 1, entries).len() ==> child_of(
                #[trigger] listed(dir, depth + 1, entries)[i],
                dir,
                depth,
            ) && well_formed(listed(dir, depth + 1, entries)[i]),
{
    let all = listed(dir, depth + 1, entries);
    sorted_is_ordered(nodes_for(dir, depth + 1, kept(entries)));
    assert forall|i: int| 0 <= i < all.len() implies child_of(#[trigger] all[i], dir, depth)
        && well_formed(all[i]) by {
        let e = lemma_listed_from(dir, depth + 1, entries, i);
        let k = choose|k: int| 0 <= k < entries.len() && entries[k] == e;
        assert(valid_name(entries[k].name));
        entry_path(dir, e.name);
    }
}

/// Loading its children keeps a directory well formed, expanded or not.
pub proof fn loaded_well_formed(n: NodeView, disk: Disk)
    requires
        names_valid(disk),
        well_formed(NodeView { expanded: false, ..n }),
        n.is_dir,
    ensures
        well_formed(loaded(n, disk)),
{
    let key = components_of(n.path);
    let collapsed = NodeView { expanded: false, ..n };
    assert forall|i: int| 0 <= i < n.children.len() implies child_of(
        #[trigger] n.children[i],
        n.path,
        n.depth,
    ) && well_formed(n.children[i]) by {
        assert(collapsed.children[i] == n.children[i]);
    }
    if disk.contains_key(key) {
        assert forall|i: int| 0 <= i < disk[key].len() implies valid_name(
            (#[trigger] disk[key][i]).name,
        ) by {}
        listed_well_formed(n.path, n.depth, disk[key]);
    }
}

/// Toggling keeps a node well formed.
pub proof fn toggled_well_formed(n: NodeView, disk: Disk)
    requires
        names_valid(disk),
        well_formed(n),
    ensures
        well_formed(toggled(n, disk)),
{
    let collapsed = NodeView { expanded: false, ..n };
    assert(well_formed(collapsed)) by {
        assert forall|i: int| 0 <= i < collapsed.children.len() implies child_of(
            #[trigger] collapsed.children[i],
            collapsed.path,
            collapsed.depth,
        ) && well_formed(collapsed.children[i]) by {
            assert(collapsed.children[i] == n.children[i]);
        }
    }
    if n.is_dir && !n.expanded {
        loaded_well_formed(NodeView { expanded: true, ..n }, disk);
    }
}

/// What is shown for a list of siblings is what is shown for one of them.
proof fn lemma_flat_all_shows(nodes: Seq<NodeView>, path: Seq<u8>)
    ensures
        (exists|i: int|
            0 <= i < flat_all(nodes).len() && same_path((#[trigger] flat_all(nodes)[i]).path, path))
            == (exists|k: int| 0 <= k < nodes.len() && shows(#[trigger] nodes[k], path)),
    decreases nodes.len(),
{
    if nodes.len() > 0 {
        let ahead = nodes.drop_last();
        let last = nodes.last();
        lemma_flat_all_shows(ahead, path);
        let (x, y) = (flat_all(ahead), flat(last));
        let all = flat_all(nodes);
        if exists|i: int| 0 <= i < all.len() && same_path((#[trigger] all[i]).path, path) {
            let i = choose|i: int| 0 <= i < all.len() && same_path((#[trigger] all[i]).path, path);
            if i < x.len() {
                assert(x[i] == all[i]);
                let k = choose|k: int| 0 <= k < ahead.len() && shows(#[trigger] ahead[k], path);
                assert(nodes[k] == ahead[k]);
            } else {
                assert(y[i - x.len()] == all[i]);
                assert(shows(nodes[nodes.len() - 1], path));
            }
        }
        if exists|k: int| 0 <= k < nodes.len() && shows(#[trigger] nodes[k], path) {
            let k = choose|k: int| 0 <= k < nodes.len() && shows(#[trigger] nodes[k], path);
            if k < ahead.len() {
                assert(shows(ahead[k], path));
                let i = choose|i: int| 0 <= i < x.len() && same_path((#[trigger] x[i]).path, path);
                assert(all[i] == x[i]);
            } else {
                let i = choose|i: int| 0 <= i < y.len() && same_path((#[trigger] y[i]).path, path);
                assert(all[x.len() + i] == y[i]);
            }
        }
    }
}

/// A path is shown for a node if it is the node's own, or if the node is expanded and the
/// path is shown for one of its children.
pub proof fn lemma_shows(n: NodeView, path: Seq<u8>)
    ensures
        shows(n, path) == (same_path(n.path, path) || (n.expanded && exists|k: int|
            0 <= k < n.children.len() && shows(#[trigger] n.children[k], path))),
{
    lemma_flat_all_shows(n.children, path);
    let (all, below) = (flat(n), flat_all(n.children));
    assert(all[0] == n);
    if n.expanded {
        assert forall|i: int| 0 <= i < below.len() implies all[i + 1] == #[trigger] below[i] by {}
        if shows(n, path) && !same_path(n.path, path) {
            let i = choose|i: int| 0 <= i < all.len() && same_path((#[trigger] all[i]).path, path);
            assert(below[i - 1] == all[i]);
        }
    }
}

/// It is the first: the path is shown for no sibling before it.
pub proof fn lemma_first_showing(nodes: Seq<NodeView>, path: Seq<u8>)
    ensures
        0 <= first_showing(nodes, path) <= nodes.len(),
        forall|i: int| 0 <= i < first_showing(nodes, path) ==> !shows(#[trigger] nodes[i], path),
        first_showing(nodes, path) < nodes.len() ==> shows(
            nodes[first_showing(nodes, path)],
            path,
        ),
    decreases nodes.len(),
{
    if nodes.len() > 0 && !shows(nodes[0], path) {
        let rest = nodes.drop_first();
        lemma_first_showing(rest, path);
        assert forall|i: int| 0 <= i < first_showing(nodes, path) implies !shows(
            #[trigger] nodes[i],
            path,
        ) by {
            if i > 0 {
                assert(rest[i - 1] == nodes[i]);
            }
        }
    }
}

/// A tree that does not show a path stays as it is when that path is toggled.
pub proof fn toggled_at_unshown(n: NodeView, path: Seq<u8>, disk: Disk)
    requires
        !shows(n, path),
    ensures
        toggled_at(n, path, disk) == n,
{
    lemma_shows(n, path);
    lemma_first_showing(n.children, path);
}

/// Toggling keeps what a node is: its path, its name, its kind and its depth.
pub proof fn toggled_at_identity(n: NodeView, path: Seq<u8>, disk: Disk)
    ensures
        toggled_at(n, path, disk).path == n.path,
        toggled_at(n, path, disk).name == n.name,
        toggled_at(n, path, disk).is_dir == n.is_dir,
        toggled_at(n, path, disk).depth == n.depth,
{
}

/// Toggling keeps a tree well formed.
pub proof fn toggled_at_well_formed(n: NodeView, path: Seq<u8>, disk: Disk)
    requires
        names_valid(disk),
        well_formed(n),
    ensures
        well_formed(toggled_at(n, path, disk)),
    decreases n,
{
    let k = first_showing(n.children, path);
    if same_path(n.path, path) {
        toggled_well_formed(n, disk);
    } else if n.expanded && 0 <= k < n.children.len() {
        let child = n.children[k];
        toggled_at_well_formed(child, path, disk);
        toggled_at_identity(child, path, disk);
        let now = toggled_at(n, path, disk);
        assert forall|i: int, j: int| 0 <= i < j < now.children.len() implies !node_before(
            #[trigger] now.children[j],
            #[trigger] now.children[i],
        ) by {
            assert(!node_before(n.children[j], n.children[i]));
        }
        assert forall|i: int| 0 <= i < now.children.len() implies child_of(
            #[trigger] now.children[i],
            now.path,
            now.depth,
        ) && well_formed(now.children[i]) by {
            assert(child_of(n.children[i], n.path, n.depth) && well_formed(n.children[i]));
        }
    }
}

/// Two children of a directory that have the same components have the same bytes.
pub proof fn children_same_path(a: NodeView, b: NodeView, dir: Seq<u8>, depth: nat)
    requires
        child_of(a, dir, depth),
        child_of(b, dir, depth),
        same_path(a.path, b.path),
    ensures
        a.path == b.path,
{
    components_shape(a.path);
    components_shape(b.path);
    let (x, y) = (file_name_of(a.path).unwrap(), file_name_of(b.path).unwrap());
    let (sa, sb) = (components_of(a.path), components_of(b.path));
    assert(sa[sa.len() - 1] == Step::Normal(x));
    assert(sb[sb.len() - 1] == Step::Normal(y));
}

/// Reading a directory again leaves it with proper children, in their order.
pub proof fn reread_well_formed(dir: Seq<u8>, depth: nat, former: Seq<NodeView>, disk: Disk)
    requires
        names_valid(disk),
        disk.contains_key(components_of(dir)),
        depth <= components_of(dir).len(),
        forall|i: int|
            0 <= i < former.len() ==> child_of(#[trigger] former[i], dir, depth) && well_formed(
                former[i],
            ),
    ensures
        ordered(reread(dir, depth, former, disk)),
        forall|i: int|
            0 <= i < reread(dir, depth, former, disk).len() ==> child_of(
                #[trigger] reread(dir, depth, former, disk)[i],
                dir,
                depth,
            ) && well_formed(reread(dir, depth, former, disk)[i]),
    decreases former, 1int,
{
    let entries = disk[components_of(dir)];
    let leaves = listed(dir, depth + 1, entries);
    let now = reread(dir, depth, former, disk);
    assert forall|i: int| 0 <= i < entries.len() implies valid_name((#[trigger] entries[i]).name) by {
        assert(valid_name(disk[components_of(dir)][i].name));
    }
    listed_well_formed(dir, depth, entries);
    assert forall|i: int| 0 <= i < now.len() implies child_of(#[trigger] now[i], dir, depth)
        && well_formed(now[i]) && now[i].is_dir == leaves[i].is_dir && now[i].name
        == leaves[i].name by {
        let e = lemma_listed_from(dir, depth + 1, entries, i);
        assert(child_of(leaves[i], dir, depth));
        carried_well_formed(leaves[i], dir, depth, former, disk);
    }
    assert forall|i: int, j: int| 0 <= i < j < now.len() implies !node_before(
        #[trigger] now[j],
        #[trigger] now[i],
    ) by {
        assert(!node_before(leaves[j], leaves[i]));
    }
}

proof fn carried_well_formed(
    leaf: NodeView,
    dir: Seq<u8>,
    depth: nat,
    former: Seq<NodeView>,
    disk: Disk,
)
    requires
        names_valid(disk),
        child_of(leaf, dir, depth),
        well_formed(leaf),
        forall|i: int|
            0 <= i < former.len() ==> child_of(#[trigger] former[i], dir, depth) && well_formed(
                former[i],
            ),
    ensures
        child_of(carried(leaf, former, disk), dir, depth),
        well_formed(carried(leaf, former, disk)),
        carried(leaf, former, disk).path == leaf.path,
        carried(leaf, former, disk).is_dir == leaf.is_dir,
        carried(leaf, former, disk).name == leaf.name,
    decreases former, 0int,
{
    lemma_first_at(former, leaf.path);
    let k = first_at(former, leaf.path);
    if k < former.len() {
        let was = former[k];
        assert(child_of(was, dir, depth) && well_formed(was));
        children_same_path(was, leaf, dir, depth);
        let known = NodeView {
            expanded: was.expanded,
            children_loaded: was.children_loaded,
            children: was.children,
            ..leaf
        };
        assert forall|i: int| 0 <= i < known.children.len() implies child_of(
            #[trigger] known.children[i],
            known.path,
            known.depth,
        ) && well_formed(known.children[i]) by {
            assert(child_of(was.children[i], was.path, was.depth));
        }
        if known.expanded && !known.children_loaded {
            if known.is_dir {
                loaded_well_formed(known, disk);
            }
        } else if known.is_dir && known.children_loaded && disk.contains_key(
            components_of(known.path),
        ) {
            reread_well_formed(known.path, known.depth, was.children, disk);
        }
    }
}

/// Reading a tree again keeps it well formed.
pub proof fn refreshed_well_formed(n: NodeView, disk: Disk)
    requires
        names_valid(disk),
        well_formed(n),
    ensures
        well_formed(refreshed(n, disk)),
{
    if n.is_dir && n.children_loaded && disk.contains_key(components_of(n.path)) {
        reread_well_formed(n.path, n.depth, n.children, disk);
    }
}

/// The depths of a well formed tree leave room for those of all that may be read.
pub proof fn lemma_depths_fit(n: NodeView)
    requires
        well_formed(n),
    ensures
        depths_fit(n.depth, n.path, n.children),
    decreases n,
{
    assert forall|i: int|
        0 <= i < n.children.len() && ((#[trigger] n.children[i]).expanded
            || n.children[i].children_loaded) implies depths_fit(
        n.depth + 1,
        n.children[i].path,
        n.children[i].children,
    ) by {
        assert(child_of(n.children[i], n.path, n.depth));
        lemma_depths_fit(n.children[i]);
    }
}

}
