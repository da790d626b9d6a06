//! What reading the tree again keeps, and what it depends on.

use vstd::prelude::*;

use crate::distinct::lemma_disk_listed_apart;
use crate::listing::{names_distinct, names_valid, Disk, EntryView};
use crate::order::sorted_is_permutation;
use crate::path::{components_of, join_of, same_path, valid_name};
use crate::refresh::lemma_first_at;
use crate::shape::{children_same_path, lemma_listed_from, listed_well_formed};
use crate::shown::agree_at;
use crate::text::lossy_text;
use crate::tree::{
    carried, child_of, first_at, fresh, ignored, kept, listed, loaded, nodes_for, read_before,
    refreshed, reread, sorted, to_read, well_formed, NodeView,
};

verus! {

/// Children that were just listed stay as they are when their directory is read again.
pub proof fn reread_after_listing(dir: Seq<u8>, depth: nat, disk: Disk)
    requires
        disk.contains_key(components_of(dir)),
    ensures
        reread(dir, depth, listed(dir, depth + 1, disk[components_of(dir)]), disk) == listed(
            dir,
            depth + 1,
            disk[components_of(dir)],
        ),
{
    let leaves = listed(dir, depth + 1, disk[components_of(dir)]);
    let now = reread(dir, depth, leaves, disk);
    assert forall|i: int| 0 <= i < leaves.len() implies now[i] == #[trigger] leaves[i] by {
        let e = lemma_listed_from(dir, depth + 1, disk[components_of(dir)], i);
        lemma_first_at(leaves, leaves[i].path);
        let k = first_at(leaves, leaves[i].path);
        if k < leaves.len() {
            let f = lemma_listed_from(dir, depth + 1, disk[components_of(dir)], k);
        }
    }
    assert(now =~= leaves);
}

/// Reading a directory again right after it was read for the first time changes nothing.
pub proof fn refreshed_after_loading(n: NodeView, disk: Disk)
    requires
        !n.children_loaded,
    ensures
        refreshed(loaded(n, disk), disk) == loaded(n, disk),
{
    if n.is_dir && disk.contains_key(components_of(n.path)) {
        reread_after_listing(n.path, n.depth, disk);
    }
}

/// Where nothing could be read, nothing changes.
pub proof fn refreshed_unread(n: NodeView, disk: Disk)
    requires
        !disk.contains_key(components_of(n.path)),
    ensures
        refreshed(n, disk) == n,
{
}

proof fn lemma_carried_twice(leaf: NodeView, former: Seq<NodeView>, now: Seq<NodeView>, disk: Disk)
    requires
        names_valid(disk),
        names_distinct(disk),
        leaf == fresh(leaf.path, leaf.is_dir, leaf.depth),
        first_at(now, leaf.path) < now.len(),
        0 <= first_at(now, leaf.path),
        now[first_at(now, leaf.path)] == carried(leaf, former, disk),
    ensures
        carried(leaf, now, disk) == carried(leaf, former, disk),
    decreases former, 0int,
{
    let once = carried(leaf, former, disk);
    let k = first_at(former, leaf.path);
    if 0 <= k < former.len() {
        let was = former[k];
        let known = NodeView {
            expanded: was.expanded,
            children_loaded: was.children_loaded,
            children: was.children,
            ..leaf
        };
        let key = components_of(leaf.path);
        if known.expanded && !known.children_loaded {
            if known.is_dir && disk.contains_key(key) {
                reread_after_listing(leaf.path, leaf.depth, disk);
            }
        } else if known.is_dir && known.children_loaded && disk.contains_key(key) {
            reread_twice(known.path, known.depth, was.children, disk);
        }
    }
    assert(carried(leaf, now, disk) == once);
}

proof fn reread_twice(dir: Seq<u8>, depth: nat, former: Seq<NodeView>, disk: Disk)
    requires
        names_valid(disk),
        names_distinct(disk),
        disk.contains_key(components_of(dir)),
    ensures
        reread(dir, depth, reread(dir, depth, former, disk), disk) == reread(
            dir,
            depth,
            former,
            disk,
        ),
    decreases former, 1int,
{
    let entries = disk[components_of(dir)];
    let leaves = listed(dir, depth + 1, entries);
    let now = reread(dir, depth, former, disk);
    let twice = reread(dir, depth, now, disk);
    lemma_disk_listed_apart(dir, depth + 1, disk);
    assert forall|i: int| 0 <= i < leaves.len() implies twice[i] == #[trigger] now[i] by {
        let e = lemma_listed_from(dir, depth + 1, entries, i);
        lemma_first_at(now, leaves[i].path);
        let k = first_at(now, leaves[i].path);
        assert(now[i].path == leaves[i].path);
        if k < i {
            assert(now[k].path == leaves[k].path);
            assert(!same_path(leaves[k].path, leaves[i].path));
        }
        lemma_carried_twice(leaves[i], former, now, disk);
    }
    assert(twice =~= now);
}

/// Reading a tree again twice, with nothing changed in between, is reading it again once.
pub proof fn refreshed_twice(n: NodeView, disk: Disk)
    requires
        names_valid(disk),
        names_distinct(disk),
    ensures
        refreshed(refreshed(n, disk), disk) == refreshed(n, disk),
{
    if n.is_dir && n.children_loaded && disk.contains_key(components_of(n.path)) {
        reread_twice(n.path, n.depth, n.children, disk);
    }
}

/// Whether two disks hold the same of all directories of a list.
pub open spec fn agree_on(disk: Disk, other: Disk, dirs: Seq<Seq<u8>>) -> bool {
    forall|i: int| 0 <= i < dirs.len() ==> agree_at(disk, other, components_of(#[trigger] dirs[i]))
}

proof fn lemma_agree_parts(disk: Disk, other: Disk, a: Seq<Seq<u8>>, b: Seq<Seq<u8>>)
    requires
        agree_on(disk, other, a + b),
    ensures
        agree_on(disk, other, a),
        agree_on(disk, other, b),
{
    assert forall|i: int| 0 <= i < a.len() implies agree_at(
        disk,
        other,
        components_of(#[trigger] a[i]),
    ) by {
        assert((a + b)[i] == a[i]);
    }
    assert forall|i: int| 0 <= i < b.len() implies agree_at(
        disk,
        other,
        components_of(#[trigger] b[i]),
    ) by {
        assert((a + b)[a.len() + i] == b[i]);
    }
}

/// What has to be read for one sibling has to be read for all.
proof fn lemma_read_before_one(nodes: Seq<NodeView>, k: int, disk: Disk, other: Disk)
    requires
        0 <= k < nodes.len(),
        nodes[k].expanded || nodes[k].children_loaded,
        agree_on(disk, other, read_before(nodes)),
    ensures
        agree_at(disk, other, components_of(nodes[k].path)),
        agree_on(disk, other, read_before(nodes[k].children)),
    decreases nodes.len(),
{
    let ahead = nodes.drop_last();
    let last = nodes.last();
    let own = if last.expanded || last.children_loaded {
        seq![last.path] + read_before(last.children)
    } else {
        seq![]
    };
    assert(read_before(nodes) == read_before(ahead) + own);
    lemma_agree_parts(disk, other, read_before(ahead), own);
    if k < ahead.len() {
        assert(ahead[k] == nodes[k]);
        lemma_read_before_one(ahead, k, disk, other);
    } else {
        lemma_agree_parts(disk, other, seq![last.path], read_before(last.children));
        assert(seq![last.path][0] == last.path);
    }
}

proof fn lemma_reread_reads(
    dir: Seq<u8>,
    depth: nat,
    former: Seq<NodeView>,
    disk: Disk,
    other: Disk,
)
    requires
        agree_at(disk, other, components_of(dir)),
        disk.contains_key(components_of(dir)),
        agree_on(disk, other, read_before(former)),
    ensures
        reread(dir, depth, former, disk) == reread(dir, depth, former, other),
    decreases former, 1int,
{
    let leaves = listed(dir, depth + 1, disk[components_of(dir)]);
    assert forall|i: int| 0 <= i < leaves.len() implies carried(
        #[trigger] leaves[i],
        former,
        disk,
    ) == carried(leaves[i], former, other) by {
        lemma_carried_reads(leaves[i], former, disk, other);
    }
    assert(reread(dir, depth, former, disk) =~= reread(dir, depth, former, other));
}

proof fn lemma_carried_reads(leaf: NodeView, former: Seq<NodeView>, disk: Disk, other: Disk)
    requires
        agree_on(disk, other, read_before(former)),
    ensures
        carried(leaf, former, disk) == carried(leaf, former, other),
    decreases former, 0int,
{
    lemma_first_at(former, leaf.path);
    let k = first_at(former, leaf.path);
    if k < former.len() {
        let was = former[k];
        if was.expanded || was.children_loaded {
            lemma_read_before_one(former, k, disk, other);
            if was.children_loaded && disk.contains_key(components_of(leaf.path)) {
                lemma_reread_reads(leaf.path, leaf.depth, was.children, disk, other);
            }
        }
    }
}

/// What reading a tree again makes of it depends on the disk only for the directories
/// that have to be read.
pub proof fn refreshed_reads(n: NodeView, disk: Disk, other: Disk)
    requires
        agree_on(disk, other, to_read(n)),
    ensures
        refreshed(n, disk) == refreshed(n, other),
{
    if n.is_dir && n.children_loaded {
        lemma_agree_parts(disk, other, seq![n.path], read_before(n.children));
        assert(seq![n.path][0] == n.path);
        if disk.contains_key(components_of(n.path)) {
            lemma_reread_reads(n.path, n.depth, n.children, disk, other);
        }
    }
}

/// Every entry that is not left out is listed.
pub proof fn listed_has_entry(dir: Seq<u8>, depth: nat, entries: Seq<EntryView>, e: EntryView)
    requires
        entries.contains(e),
        !ignored(lossy_text(e.name)),
    ensures
        listed(dir, depth, entries).contains(fresh(join_of(dir, e.name), e.is_dir, depth)),
{
    broadcast use vstd::seq_lib::group_to_multiset_ensures;

    let f = |e: EntryView| !ignored(lossy_text(e.name));
    entries.lemma_filter_contains(f, choose|i: int| 0 <= i < entries.len() && entries[i] == e);
    let some = kept(entries);
    let i = choose|i: int| 0 <= i < some.len() && some[i] == e;
    let nodes = nodes_for(dir, depth, some);
    let node = fresh(join_of(dir, e.name), e.is_dir, depth);
    assert(nodes[i] == node);
    assert(nodes.contains(node));
    sorted_is_permutation(nodes);
    assert(nodes.to_multiset().count(node) > 0);
    assert(sorted(nodes).to_multiset().count(node) > 0);
}

/// A child of a directory that is read again was there before, and then it is read again
/// in turn and stays expanded or collapsed, or it is new and collapsed. Each is an entry
/// of the directory, and a directory if the entry is one.
pub proof fn refreshed_child(n: NodeView, disk: Disk, i: int)
    requires
        names_valid(disk),
        well_formed(n),
        n.is_dir,
        n.children_loaded,
        disk.contains_key(components_of(n.path)),
        0 <= i < refreshed(n, disk).children.len(),
    ensures
        ({
            let child = refreshed(n, disk).children[i];
            let k = first_at(n.children, child.path);
            &&& exists|e: EntryView| #[trigger]
                disk[components_of(n.path)].contains(e) && child.path == join_of(n.path, e.name)
                    && child.is_dir == e.is_dir
            &&& k < n.children.len() ==> child == refreshed(
                NodeView { is_dir: child.is_dir, ..n.children[k] },
                disk,
            )
            &&& k < n.children.len() ==> child.expanded == n.children[k].expanded
            &&& k == n.children.len() ==> child == fresh(child.path, child.is_dir, n.depth + 1)
        }),
{
    let entries = disk[components_of(n.path)];
    let leaves = listed(n.path, n.depth + 1, entries);
    let e = lemma_listed_from(n.path, n.depth + 1, entries, i);
    let leaf = leaves[i];
    let child = refreshed(n, disk).children[i];
    assert(child == carried(leaf, n.children, disk));
    assert forall|j: int| 0 <= j < entries.len() implies valid_name(
        (#[trigger] entries[j]).name,
    ) by {
        assert(valid_name(disk[components_of(n.path)][j].name));
    }
    listed_well_formed(n.path, n.depth, entries);
    assert(child_of(leaf, n.path, n.depth));
    lemma_first_at(n.children, leaf.path);
    let k = first_at(n.children, leaf.path);
    assert(child.path == leaf.path);
    if k < n.children.len() {
        let was = n.children[k];
        assert(child_of(was, n.path, n.depth) && well_formed(was));
        children_same_path(was, leaf, n.path, n.depth);
    }
}

/// Every entry of a directory that is read again, but for those that are left out, is
/// among its children.
pub proof fn refreshed_has_entry(n: NodeView, disk: Disk, e: EntryView)
    requires
        n.is_dir,
        n.children_loaded,
        disk.contains_key(components_of(n.path)),
        disk[components_of(n.path)].contains(e),
        !ignored(lossy_text(e.name)),
    ensures
        exists|i: int|
            0 <= i < refreshed(n, disk).children.len() && (#[trigger] refreshed(
                n,
                disk,
            ).children[i]).path == join_of(n.path, e.name) && refreshed(n, disk).children[i].is_dir
                == e.is_dir,
{
    let entries = disk[components_of(n.path)];
    listed_has_entry(n.path, n.depth + 1, entries, e);
    let leaves = listed(n.path, n.depth + 1, entries);
    let leaf = fresh(join_of(n.path, e.name), e.is_dir, n.depth + 1);
    let i = choose|i: int| 0 <= i < leaves.len() && leaves[i] == leaf;
    assert(refreshed(n, disk).children[i] == carried(leaves[i], n.children, disk));
}

/// Reading again changes nothing of a node but its children; a file, a directory that was
/// not read before, and one that cannot be read now stay altogether.
pub proof fn refreshed_keeps_node(n: NodeView, disk: Disk)
    ensures
        refreshed(n, disk) == (NodeView { children: refreshed(n, disk).children, ..n }),
        !n.is_dir || !n.children_loaded || !disk.contains_key(components_of(n.path))
            ==> refreshed(n, disk) == n,
{
}

/// The children of a directory that is read again are those that are listed of it, in that
/// order: each has the listed one's path, name, kind and depth.
pub proof fn refreshed_lists(n: NodeView, disk: Disk)
    requires
        n.is_dir,
        n.children_loaded,
        disk.contains_key(components_of(n.path)),
    ensures
        ({
            let now = refreshed(n, disk).children;
            let leaves = listed(n.path, n.depth + 1, disk[components_of(n.path)]);
            &&& now.len() == leaves.len()
            &&& forall|i: int|
                0 <= i < now.len() ==> (#[trigger] now[i]).path == leaves[i].path && now[i].name
                    == leaves[i].name && now[i].is_dir == leaves[i].is_dir && now[i].depth
                    == leaves[i].depth
        }),
{
}

/// A child that is new is collapsed and not read. One that was there, under the first former
/// child of its path, takes over whether it is expanded and was read, and what was below it.
/// That is read again in turn or, if the child is expanded and was not read, read now.
pub proof fn refreshed_takes_over(n: NodeView, disk: Disk, i: int, j: int)
    requires
        n.is_dir,
        n.children_loaded,
        disk.contains_key(components_of(n.path)),
        0 <= i < refreshed(n, disk).children.len(),
        0 <= j <= n.children.len(),
        forall|m: int|
            0 <= m < j ==> !same_path(
                (#[trigger] n.children[m]).path,
                refreshed(n, disk).children[i].path,
            ),
        j < n.children.len() ==> same_path(
            n.children[j].path,
            refreshed(n, disk).children[i].path,
        ),
    ensures
        ({
            let child = refreshed(n, disk).children[i];
            if j < n.children.len() {
                let was = n.children[j];
                let known = NodeView {
                    expanded: was.expanded,
                    children_loaded: was.children_loaded,
                    children: was.children,
                    ..child
                };
                if was.expanded && !was.children_loaded {
                    child == loaded(known, disk)
                } else {
                    child == refreshed(known, disk)
                }
            } else {
                !child.expanded && !child.children_loaded && child.children.len() == 0
            }
        }),
{
    let leaves = listed(n.path, n.depth + 1, disk[components_of(n.path)]);
    let leaf = leaves[i];
    let e = lemma_listed_from(n.path, n.depth + 1, disk[components_of(n.path)], i);
    let child = refreshed(n, disk).children[i];
    assert(child == carried(leaf, n.children, disk));
    assert(child.path == leaf.path);
    lemma_first_at(n.children, leaf.path);
    let k = first_at(n.children, leaf.path);
    if k < j {
        assert(!same_path(n.children[k].path, child.path));
    } else if j < k {
        assert(!same_path(n.children[j].path, leaf.path));
    }
}

}
