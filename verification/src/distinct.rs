//! That no path occurs twice in the tree, where no directory holds a name twice.

use vstd::prelude::*;

use crate::listing::{names_distinct, names_valid, Disk, EntryView};
use crate::order::lemma_placed;
use crate::path::{
    components_of, components_shape, entry_path, file_name_of, same_path, valid_name, Step,
};
use crate::refresh::lemma_first_at;
use crate::shape::lemma_sorted_from;
use crate::shown::lemma_flat_all_at;
use crate::text::lossy_text;
use crate::tree::{
    carried, child_of, first_at, first_showing, flat, flat_all, ignored, kept, listed, loaded,
    nodes_for, refreshed, reread, sorted, toggled_at, well_formed, NodeView,
};

verus! {

/// Whether no two of a list of nodes have the same path.
pub open spec fn apart(nodes: Seq<NodeView>) -> bool {
    forall|i: int, j: int|
        0 <= i < j < nodes.len() ==> !same_path(
            (#[trigger] nodes[i]).path,
            (#[trigger] nodes[j]).path,
        )
}

/// Whether no two siblings of a tree have the same path.
pub open spec fn distinct(n: NodeView) -> bool
    decreases n,
{
    &&& apart(n.children)
    &&& forall|i: int| 0 <= i < n.children.len() ==> distinct(#[trigger] n.children[i])
}

/// The path of a child is its directory's with one more component.
pub proof fn lemma_child_path(child: NodeView, dir: Seq<u8>, depth: nat)
    requires
        child_of(child, dir, depth),
    ensures
        components_of(child.path).len() == components_of(dir).len() + 1,
        components_of(dir) == components_of(child.path).drop_last(),
{
    components_shape(child.path);
    let name = file_name_of(child.path).unwrap();
    let steps = components_of(child.path);
    assert(steps[steps.len() - 1] == Step::Normal(name));
    entry_path(dir, name);
    assert(steps.drop_last() =~= components_of(dir));
}

/// What is shown below a node has a path below the node's own, and is as much deeper as
/// its path is longer. None of it is of a kind that is left out.
pub proof fn shown_below(n: NodeView, i: int)
    requires
        well_formed(n),
        0 <= i < flat(n).len(),
    ensures
        well_formed(flat(n)[i]),
        components_of(n.path).is_prefix_of(components_of(flat(n)[i].path)),
        flat(n)[i].depth - n.depth == components_of(flat(n)[i].path).len() - components_of(
            n.path,
        ).len(),
        i > 0 ==> flat(n)[i].depth > n.depth,
        i > 0 ==> !ignored(flat(n)[i].name),
    decreases n,
{
    if i == 0 {
        assert(flat(n)[0] == n);
    } else {
        let k = lemma_flat_all_at(n.children, i - 1);
        let j = i - 1 - flat_all(n.children.take(k)).len();
        let child = n.children[k];
        assert(child_of(child, n.path, n.depth) && well_formed(child));
        lemma_child_path(child, n.path, n.depth);
        shown_below(child, j);
        let m = flat(n)[i];
        assert(m == flat(child)[j]);
        let (a, b, c) = (components_of(n.path), components_of(child.path), components_of(m.path));
        assert(a.is_prefix_of(c)) by {
            assert(b =~= c.take(b.len() as int));
            assert(a =~= c.take(a.len() as int));
        }
        if j == 0 {
            assert(flat(child)[0] == child);
        }
    }
}

/// No path is shown twice.
pub proof fn shown_apart(n: NodeView)
    requires
        well_formed(n),
        distinct(n),
    ensures
        apart(flat(n)),
    decreases n,
{
    let all = flat(n);
    assert forall|i: int, j: int| 0 <= i < j < all.len() implies !same_path(
        (#[trigger] all[i]).path,
        (#[trigger] all[j]).path,
    ) by {
        shown_below(n, j);
        if i == 0 {
            assert(all[0] == n);
        } else {
            let below = flat_all(n.children);
            let k = lemma_flat_all_at(n.children, i - 1);
            let l = lemma_flat_all_at(n.children, j - 1);
            let p = i - 1 - flat_all(n.children.take(k)).len();
            let q = j - 1 - flat_all(n.children.take(l)).len();
            let (x, y) = (n.children[k], n.children[l]);
            assert(all[i] == flat(x)[p] && all[j] == flat(y)[q]);
            assert(child_of(x, n.path, n.depth) && well_formed(x) && distinct(x));
            assert(child_of(y, n.path, n.depth) && well_formed(y) && distinct(y));
            if k == l {
                shown_apart(x);
                assert(!same_path(flat(x)[p].path, flat(x)[q].path));
            } else {
                lemma_child_path(x, n.path, n.depth);
                lemma_child_path(y, n.path, n.depth);
                shown_below(x, p);
                shown_below(y, q);
                if same_path(all[i].path, all[j].path) {
                    let steps = components_of(all[i].path);
                    let m = components_of(x.path).len() as int;
                    assert(components_of(x.path) =~= steps.take(m));
                    assert(components_of(y.path) =~= steps.take(m));
                    if k < l {
                        assert(!same_path(n.children[k].path, n.children[l].path));
                    } else {
                        assert(!same_path(n.children[l].path, n.children[k].path));
                    }
                }
            }
        }
    }
}

/// Where no two nodes have the same path, the first node of a path is the only one.
pub proof fn apart_once(all: Seq<NodeView>, i: int)
    requires
        apart(all),
        0 <= i < all.len(),
    ensures
        first_at(all, all[i].path) == i,
{
    lemma_first_at(all, all[i].path);
    let k = first_at(all, all[i].path);
    assert(same_path(all[i].path, all[i].path));
    if k < i {
        assert(!same_path(all[k].path, all[i].path));
    }
}

/// Entries of different names, without those that are left out.
proof fn lemma_kept_names(entries: Seq<EntryView>)
    requires
        forall|i: int, j: int|
            0 <= i < j < entries.len() ==> (#[trigger] entries[i]).name != (
            #[trigger] entries[j]).name,
    ensures
        forall|i: int| 0 <= i < kept(entries).len() ==> entries.contains(#[trigger] kept(entries)[i]),
        forall|i: int, j: int|
            0 <= i < j < kept(entries).len() ==> (#[trigger] kept(entries)[i]).name != (
            #[trigger] kept(entries)[j]).name,
    decreases entries.len(),
{
    let f = |e: EntryView| !ignored(lossy_text(e.name));
    let rest = kept(entries);
    assert forall|i: int| 0 <= i < rest.len() implies entries.contains(#[trigger] rest[i]) by {
        assert(rest.contains(rest[i]));
        entries.lemma_filter_contains_rev(f, rest[i]);
    }
    if entries.len() > 0 {
        let ahead = entries.drop_last();
        let last = entries.last();
        lemma_kept_names(ahead);
        assert(entries =~= ahead.push(last));
        ahead.lemma_filter_push(last, f);
        assert forall|i: int, j: int| 0 <= i < j < rest.len() implies (#[trigger] rest[i]).name != (
        #[trigger] rest[j]).name by {
            assert(rest[i] == kept(ahead)[i]);
            if j < kept(ahead).len() {
                assert(rest[j] == kept(ahead)[j]);
            } else {
                assert(ahead.contains(kept(ahead)[i]));
                let a = choose|a: int| 0 <= a < ahead.len() && ahead[a] == kept(ahead)[i];
                assert(entries[a].name != entries[entries.len() - 1].name);
            }
        }
    } else {
        reveal(Seq::filter);
    }
}

proof fn lemma_sorted_apart(nodes: Seq<NodeView>)
    requires
        apart(nodes),
    ensures
        apart(sorted(nodes)),
    decreases nodes.len(),
{
    if nodes.len() > 0 {
        let rest = nodes.drop_first();
        assert forall|i: int, j: int| 0 <= i < j < rest.len() implies !same_path(
            (#[trigger] rest[i]).path,
            (#[trigger] rest[j]).path,
        ) by {
            assert(!same_path(nodes[i + 1].path, nodes[j + 1].path));
        }
        lemma_sorted_apart(rest);
        let s = sorted(rest);
        let p = lemma_placed(nodes[0], s);
        let all = sorted(nodes);
        assert forall|i: int| 0 <= i < s.len() implies !same_path(
            nodes[0].path,
            (#[trigger] s[i]).path,
        ) by {
            let k = lemma_sorted_from(rest, i);
            assert(!same_path(nodes[0].path, nodes[k + 1].path));
        }
        assert forall|i: int, j: int| 0 <= i < j < all.len() implies !same_path(
            (#[trigger] all[i]).path,
            (#[trigger] all[j]).path,
        ) by {
            if i < p {
                assert(all[i] == s[i]);
            } else if i > p {
                assert(all[i] == s[i - 1]);
            }
            if j < p {
                assert(all[j] == s[j]);
            } else if j > p {
                assert(all[j] == s[j - 1]);
            }
        }
    }
}

/// Entries of different names become nodes of different paths.
pub proof fn listed_apart(dir: Seq<u8>, depth: nat, entries: Seq<EntryView>)
    requires
        forall|i: int| 0 <= i < entries.len() ==> valid_name((#[trigger] entries[i]).name),
        forall|i: int, j: int|
            0 <= i < j < entries.len() ==> (#[trigger] entries[i]).name != (
            #[trigger] entries[j]).name,
    ensures
        apart(listed(dir, depth, entries)),
        forall|i: int|
            0 <= i < listed(dir, depth, entries).len() ==> distinct(
                #[trigger] listed(dir, depth, entries)[i],
            ),
{
    lemma_kept_names(entries);
    let some = kept(entries);
    let nodes = nodes_for(dir, depth, some);
    assert forall|i: int, j: int| 0 <= i < j < nodes.len() implies !same_path(
        (#[trigger] nodes[i]).path,
        (#[trigger] nodes[j]).path,
    ) by {
        let (a, b) = (some[i], some[j]);
        assert(entries.contains(a) && entries.contains(b));
        assert(a.name != b.name);
        entry_path(dir, a.name);
        entry_path(dir, b.name);
        let (x, y) = (components_of(nodes[i].path), components_of(nodes[j].path));
        assert(x.last() == Step::Normal(a.name));
        assert(y.last() == Step::Normal(b.name));
    }
    lemma_sorted_apart(nodes);
    let all = listed(dir, depth, entries);
    assert forall|i: int| 0 <= i < all.len() implies distinct(#[trigger] all[i]) by {
        let j = lemma_sorted_from(nodes, i);
    }
}

pub proof fn lemma_disk_listed_apart(dir: Seq<u8>, depth: nat, disk: Disk)
    requires
        names_valid(disk),
        names_distinct(disk),
        disk.contains_key(components_of(dir)),
    ensures
        apart(listed(dir, depth, disk[components_of(dir)])),
        forall|i: int|
            0 <= i < listed(dir, depth, disk[components_of(dir)]).len() ==> distinct(
                #[trigger] listed(dir, depth, disk[components_of(dir)])[i],
            ),
{
    let key = components_of(dir);
    let entries = disk[key];
    assert forall|i: int| 0 <= i < entries.len() implies valid_name((#[trigger] entries[i]).name) by {
        assert(valid_name(disk[key][i].name));
    }
    assert forall|i: int, j: int| 0 <= i < j < entries.len() implies (#[trigger] entries[i]).name
        != (#[trigger] entries[j]).name by {
        assert(disk[key][i].name != disk[key][j].name);
    }
    listed_apart(dir, depth, entries);
}

/// Loading its children leaves a node without two of one path below it.
pub proof fn loaded_distinct(n: NodeView, disk: Disk)
    requires
        names_valid(disk),
        names_distinct(disk),
        distinct(n),
    ensures
        distinct(loaded(n, disk)),
{
    let key = components_of(n.path);
    let now = loaded(n, disk);
    if n.children_loaded || !n.is_dir {
    } else if disk.contains_key(key) {
        lemma_disk_listed_apart(n.path, n.depth + 1, disk);
    } else {
        assert(now.children == n.children);
        lemma_distinct_children(n, now);
    }
}

proof fn lemma_distinct_children(n: NodeView, now: NodeView)
    requires
        distinct(n),
        now.children == n.children,
    ensures
        distinct(now),
{
    assert forall|i: int| 0 <= i < now.children.len() implies distinct(#[trigger] now.children[i]) by {
        assert(distinct(n.children[i]));
    }
}

/// Toggling leaves a tree without two nodes of one path.
pub proof fn toggled_at_distinct(n: NodeView, path: Seq<u8>, disk: Disk)
    requires
        names_valid(disk),
        names_distinct(disk),
        distinct(n),
    ensures
        distinct(toggled_at(n, path, disk)),
    decreases n,
{
    let k = first_showing(n.children, path);
    let now = toggled_at(n, path, disk);
    if same_path(n.path, path) {
        if n.is_dir && n.expanded {
            lemma_distinct_children(n, now);
        } else if n.is_dir {
            let open = NodeView { expanded: true, ..n };
            lemma_distinct_children(n, open);
            loaded_distinct(open, disk);
        }
    } else if n.expanded && 0 <= k < n.children.len() {
        assert(distinct(n.children[k]));
        toggled_at_distinct(n.children[k], path, disk);
        assert(toggled_at(n.children[k], path, disk).path == n.children[k].path);
        assert forall|i: int, j: int| 0 <= i < j < now.children.len() implies !same_path(
            (#[trigger] now.children[i]).path,
            (#[trigger] now.children[j]).path,
        ) by {
            assert(!same_path(n.children[i].path, n.children[j].path));
        }
        assert forall|i: int| 0 <= i < now.children.len() implies distinct(
            #[trigger] now.children[i],
        ) by {
            assert(distinct(n.children[i]));
        }
    }
}

/// Reading a directory again leaves it without two children of one path.
pub proof fn reread_distinct(dir: Seq<u8>, depth: nat, former: Seq<NodeView>, disk: Disk)
    requires
        names_valid(disk),
        names_distinct(disk),
        disk.contains_key(components_of(dir)),
        forall|i: int| 0 <= i < former.len() ==> distinct(#[trigger] former[i]),
    ensures
        apart(reread(dir, depth, former, disk)),
        forall|i: int|
            0 <= i < reread(dir, depth, former, disk).len() ==> distinct(
                #[trigger] reread(dir, depth, former, disk)[i],
            ),
    decreases former, 1int,
{
    let leaves = listed(dir, depth + 1, disk[components_of(dir)]);
    let now = reread(dir, depth, former, disk);
    lemma_disk_listed_apart(dir, depth + 1, disk);
    assert forall|i: int| 0 <= i < now.len() implies distinct(#[trigger] now[i]) && now[i].path
        == leaves[i].path by {
        assert(distinct(leaves[i]));
        carried_distinct(leaves[i], former, disk);
    }
    assert forall|i: int, j: int| 0 <= i < j < now.len() implies !same_path(
        (#[trigger] now[i]).path,
        (#[trigger] now[j]).path,
    ) by {
        assert(!same_path(leaves[i].path, leaves[j].path));
    }
}

proof fn carried_distinct(leaf: NodeView, former: Seq<NodeView>, disk: Disk)
    requires
        names_valid(disk),
        names_distinct(disk),
        distinct(leaf),
        forall|i: int| 0 <= i < former.len() ==> distinct(#[trigger] former[i]),
    ensures
        distinct(carried(leaf, former, disk)),
        carried(leaf, former, disk).path == leaf.path,
    decreases former, 0int,
{
    let k = first_at(former, leaf.path);
    if 0 <= k < former.len() {
        let was = former[k];
        assert(distinct(was));
        let known = NodeView {
            expanded: was.expanded,
            children_loaded: was.children_loaded,
            children: was.children,
            ..leaf
        };
        lemma_distinct_children(was, known);
        if known.expanded && !known.children_loaded {
            loaded_distinct(known, disk);
        } else if known.is_dir && known.children_loaded && disk.contains_key(
            components_of(known.path),
        ) {
            assert forall|i: int| 0 <= i < was.children.len() implies distinct(
                #[trigger] was.children[i],
            ) by {}
            reread_distinct(known.path, known.depth, was.children, disk);
        }
    }
}

/// Reading a tree again leaves it without two nodes of one path.
pub proof fn refreshed_distinct(n: NodeView, disk: Disk)
    requires
        names_valid(disk),
        names_distinct(disk),
        distinct(n),
    ensures
        distinct(refreshed(n, disk)),
{
    if n.is_dir && n.children_loaded && disk.contains_key(components_of(n.path)) {
        reread_distinct(n.path, n.depth, n.children, disk);
    }
}

}
