//! Which entries of a directory become its children, as what, and in which order.

use vstd::prelude::*;

use crate::listing::{Disk, EntryView};
use crate::order::{sorted_is_ordered, sorted_is_permutation};
use crate::path::{components_of, entry_path, join_of, valid_name, Step};
use crate::shape::lemma_listed_from;
use crate::steady::listed_has_entry;
use crate::text::{lossy_text, lowercase_text, text_less};
use crate::tree::{fresh, ignored, kept, listed, loaded, node_before, nodes_for, toggled, NodeView};

verus! {

/// Whether a name is one of those that are not listed: one with a leading dot, and those of
/// three directories that tools make.
pub open spec fn left_out(name: Seq<char>) -> bool {
    (name.len() > 0 && name[0] == '.') || name == "node_modules"@ || name == "target"@ || name
        == "__pycache__"@
}

/// An entry is among the children of its directory if and only if its name does not begin
/// with a dot and is none of `node_modules`, `target` and `__pycache__`.
pub proof fn listed_unless_left_out(
    dir: Seq<u8>,
    depth: nat,
    entries: Seq<EntryView>,
    e: EntryView,
)
    requires
        forall|i: int| 0 <= i < entries.len() ==> valid_name((#[trigger] entries[i]).name),
        entries.contains(e),
    ensures
        (exists|i: int|
            0 <= i < listed(dir, depth, entries).len() && (#[trigger] listed(
                dir,
                depth,
                entries,
            )[i]).path == join_of(dir, e.name)) <==> !((lossy_text(e.name).len() > 0 && lossy_text(
            e.name,
        )[0] == '.') || lossy_text(e.name) == "node_modules"@ || lossy_text(e.name) == "target"@
            || lossy_text(e.name) == "__pycache__"@),
{
    let all = listed(dir, depth, entries);
    if !left_out(lossy_text(e.name)) {
        listed_has_entry(dir, depth, entries, e);
        let node = fresh(join_of(dir, e.name), e.is_dir, depth);
        let i = choose|i: int| 0 <= i < all.len() && all[i] == node;
        assert(all[i].path == join_of(dir, e.name));
    }
    if exists|i: int| 0 <= i < all.len() && (#[trigger] all[i]).path == join_of(dir, e.name) {
        let i = choose|i: int| 0 <= i < all.len() && (#[trigger] all[i]).path == join_of(
            dir,
            e.name,
        );
        let f = lemma_listed_from(dir, depth, entries, i);
        let a = choose|a: int| 0 <= a < entries.len() && entries[a] == e;
        let b = choose|b: int| 0 <= b < entries.len() && entries[b] == f;
        assert(valid_name(entries[a].name) && valid_name(entries[b].name));
        entry_path(dir, e.name);
        entry_path(dir, f.name);
        assert(components_of(all[i].path).last() == Step::Normal(e.name));
        assert(components_of(all[i].path).last() == Step::Normal(f.name));
    }
}

/// Names with a leading dot, `node_modules`, `target` and `__pycache__` are ignored, and no
/// others.
pub proof fn ignored_names(name: Seq<char>)
    ensures
        ignored(name) <==> (name.len() > 0 && name[0] == '.') || name == "node_modules"@ || name
            == "target"@ || name == "__pycache__"@,
{
}

/// There are as many children as entries that are not left out.
pub proof fn listed_count(dir: Seq<u8>, depth: nat, entries: Seq<EntryView>)
    ensures
        listed(dir, depth, entries).len() == entries.filter(
            |e: EntryView| !left_out(lossy_text(e.name)),
        ).len(),
{
    sorted_is_permutation(nodes_for(dir, depth, kept(entries)));
    let f = |e: EntryView| !left_out(lossy_text(e.name));
    let g = |e: EntryView| !ignored(lossy_text(e.name));
    assert(f =~= g);
}

/// A child stands for an entry: it has the entry's path, name and kind, it is at the depth
/// that is asked for, collapsed, and without children of its own.
pub proof fn listed_child(dir: Seq<u8>, depth: nat, entries: Seq<EntryView>, i: int)
    requires
        forall|j: int| 0 <= j < entries.len() ==> valid_name((#[trigger] entries[j]).name),
        0 <= i < listed(dir, depth, entries).len(),
    ensures
        ({
            let child = listed(dir, depth, entries)[i];
            &&& exists|e: EntryView| #[trigger]
                entries.contains(e) && child.path == join_of(dir, e.name) && child.name
                    == lossy_text(e.name) && child.is_dir == e.is_dir
            &&& child.depth == depth
            &&& !child.expanded
            &&& !child.children_loaded
            &&& child.children.len() == 0
        }),
{
    let e = lemma_listed_from(dir, depth, entries, i);
    let a = choose|a: int| 0 <= a < entries.len() && entries[a] == e;
    assert(valid_name(entries[a].name));
    entry_path(dir, e.name);
}

/// Whether one text comes before another in the order of their characters, or is the same:
/// it is where the other goes on, or it has the smaller character where the two part.
pub open spec fn not_after(a: Seq<char>, b: Seq<char>) -> bool {
    ||| a.len() <= b.len() && b.take(a.len() as int) == a
    ||| exists|k: int|
        0 <= k < a.len() && k < b.len() && a.take(k) == b.take(k) && #[trigger] a[k] < b[k]
}

proof fn lemma_not_after(a: Seq<char>, b: Seq<char>)
    requires
        !text_less(b, a),
    ensures
        not_after(a, b),
    decreases a.len(),
{
    if a.len() == 0 {
        assert(b.take(0) =~= a);
    } else if b.len() > 0 {
        if a[0] == b[0] {
            let (x, y) = (a.drop_first(), b.drop_first());
            lemma_not_after(x, y);
            if x.len() <= y.len() && y.take(x.len() as int) == x {
                assert forall|i: int| 0 <= i < a.len() implies b[i] == a[i] by {
                    if i > 0 {
                        assert(x[i - 1] == y.take(x.len() as int)[i - 1]);
                    }
                }
                assert(b.take(a.len() as int) =~= a);
            } else {
                let k = choose|k: int|
                    0 <= k < x.len() && k < y.len() && x.take(k) == y.take(k) && #[trigger] x[k]
                        < y[k];
                assert forall|i: int| 0 <= i < k + 1 implies a[i] == b[i] by {
                    if i > 0 {
                        assert(x.take(k)[i - 1] == y.take(k)[i - 1]);
                    }
                }
                assert(a.take(k + 1) =~= b.take(k + 1));
                assert(a[k + 1] < b[k + 1]);
            }
        } else {
            assert(a.take(0) =~= b.take(0));
            assert(a[0] < b[0]);
        }
    }
}

/// Directories stand before files, and within each kind names stand in the order of their
/// characters, in lower case.
pub proof fn listed_in_order(dir: Seq<u8>, depth: nat, entries: Seq<EntryView>, i: int, j: int)
    requires
        0 <= i < j < listed(dir, depth, entries).len(),
    ensures
        ({
            let (a, b) = (listed(dir, depth, entries)[i], listed(dir, depth, entries)[j]);
            &&& b.is_dir ==> a.is_dir
            &&& a.is_dir == b.is_dir ==> not_after(lowercase_text(a.name), lowercase_text(b.name))
        }),
{
    let all = listed(dir, depth, entries);
    sorted_is_ordered(nodes_for(dir, depth, kept(entries)));
    assert(!node_before(all[j], all[i]));
    if all[i].is_dir == all[j].is_dir {
        lemma_not_after(lowercase_text(all[i].name), lowercase_text(all[j].name));
    }
}

/// Loading gives a directory the children that are listed of it, once: a second time, and a
/// file, are left as they are, and one that cannot be read counts as read.
pub proof fn loaded_once(n: NodeView, disk: Disk, later: Disk)
    ensures
        !n.is_dir ==> loaded(n, disk) == n,
        n.children_loaded ==> loaded(n, disk) == n,
        n.is_dir ==> loaded(n, disk).children_loaded,
        loaded(loaded(n, disk), later) == loaded(n, disk),
        n.is_dir && !n.children_loaded && disk.contains_key(components_of(n.path)) ==> loaded(
            n,
            disk,
        ).children == listed(n.path, n.depth + 1, disk[components_of(n.path)]),
        !disk.contains_key(components_of(n.path)) ==> loaded(n, disk).children == n.children,
        loaded(n, disk) == (NodeView {
            children: loaded(n, disk).children,
            children_loaded: loaded(n, disk).children_loaded,
            ..n
        }),
{
}

/// Toggling turns a directory's expansion round and reads it when it expands; a file is left
/// as it is, and so is all else of a directory.
pub proof fn toggled_turns_round(n: NodeView, disk: Disk)
    ensures
        !n.is_dir ==> toggled(n, disk) == n,
        n.is_dir ==> toggled(n, disk).expanded == !n.expanded,
        n.is_dir && !n.expanded ==> toggled(n, disk).children_loaded && toggled(n, disk).children
            == loaded(n, disk).children,
        n.is_dir && n.expanded ==> toggled(n, disk) == (NodeView { expanded: false, ..n }),
        toggled(n, disk).path == n.path,
        toggled(n, disk).name == n.name,
        toggled(n, disk).depth == n.depth,
        toggled(n, disk).is_dir == n.is_dir,
{
}

}
