//! What is shown of the tree, line by line, and what toggling does to it.

use vstd::prelude::*;

use crate::listing::Disk;
use crate::node::depth_fits;
use crate::path::{components_of, same_path, Step};
use crate::refresh::lemma_first_at;
use crate::shape::{lemma_first_showing, lemma_shows};
use crate::tree::{
    first_at, first_showing, flat, flat_all, loaded, shows, toggled, toggled_at, NodeView,
};

verus! {

/// What a line says of the node that it shows.
pub struct Line {
    pub path: Seq<u8>,
    pub name: Seq<char>,
    pub is_dir: bool,
    pub depth: nat,
    pub expanded: bool,
}

/// Whether two disks hold the same of a directory.
pub open spec fn agree_at(disk: Disk, other: Disk, dir: Seq<Step>) -> bool {
    &&& disk.contains_key(dir) == other.contains_key(dir)
    &&& disk.contains_key(dir) ==> disk[dir] == other[dir]
}

/// The line of a node.
pub open spec fn line_of(n: NodeView) -> Line {
    Line { path: n.path, name: n.name, is_dir: n.is_dir, depth: n.depth, expanded: n.expanded }
}

/// The lines of a list of nodes.
pub open spec fn lines(nodes: Seq<NodeView>) -> Seq<Line> {
    nodes.map_values(|n: NodeView| line_of(n))
}

/// What is shown for a list of siblings falls into what is shown before one of them, for
/// it, and after it.
pub proof fn lemma_flat_all_cut(nodes: Seq<NodeView>, k: int)
    requires
        0 <= k < nodes.len(),
    ensures
        flat_all(nodes) == flat_all(nodes.take(k)) + flat(nodes[k]) + flat_all(nodes.skip(k + 1)),
    decreases nodes.len(),
{
    let ahead = nodes.drop_last();
    if k == nodes.len() - 1 {
        assert(nodes.take(k) =~= ahead);
        assert(flat_all(nodes.skip(k + 1)) =~= seq![]);
        assert(flat_all(nodes) =~= flat_all(nodes.take(k)) + flat(nodes[k]) + flat_all(
            nodes.skip(k + 1),
        ));
    } else {
        lemma_flat_all_cut(ahead, k);
        assert(ahead.take(k) =~= nodes.take(k));
        assert(nodes.skip(k + 1).drop_last() =~= ahead.skip(k + 1));
        assert(nodes.skip(k + 1).last() == nodes.last());
        assert(flat_all(nodes) =~= flat_all(nodes.take(k)) + flat(nodes[k]) + flat_all(
            nodes.skip(k + 1),
        ));
    }
}

/// What is shown at a position for a list of siblings is shown for one of them, at the
/// position that remains after those before it.
pub proof fn lemma_flat_all_at(nodes: Seq<NodeView>, i: int) -> (k: int)
    requires
        0 <= i < flat_all(nodes).len(),
    ensures
        0 <= k < nodes.len(),
        0 <= i - flat_all(nodes.take(k)).len() < flat(nodes[k]).len(),
        flat_all(nodes)[i] == flat(nodes[k])[i - flat_all(nodes.take(k)).len()],
    decreases nodes.len(),
{
    let ahead = nodes.drop_last();
    if i < flat_all(ahead).len() {
        let k = lemma_flat_all_at(ahead, i);
        assert(ahead.take(k) =~= nodes.take(k));
        k
    } else {
        assert(nodes.take(nodes.len() - 1) =~= ahead);
        nodes.len() - 1
    }
}

/// The first position of a path in two lists, one after the other.
pub proof fn lemma_first_at_append(a: Seq<NodeView>, b: Seq<NodeView>, path: Seq<u8>)
    ensures
        first_at(a + b, path) == if first_at(a, path) < a.len() {
            first_at(a, path)
        } else {
            a.len() + first_at(b, path)
        },
    decreases a.len(),
{
    if a.len() == 0 {
        assert(a + b =~= b);
    } else if !same_path(a[0].path, path) {
        assert((a + b).drop_first() =~= a.drop_first() + b);
        lemma_first_at_append(a.drop_first(), b, path);
    }
}

/// A path is shown for a node if it has a position in what is shown.
pub proof fn lemma_shown_at(n: NodeView, path: Seq<u8>)
    ensures
        shows(n, path) <==> first_at(flat(n), path) < flat(n).len(),
{
    lemma_first_at(flat(n), path);
    if shows(n, path) {
        let i = choose|i: int|
            0 <= i < flat(n).len() && same_path((#[trigger] flat(n)[i]).path, path);
        assert(same_path(flat(n)[i].path, path));
    } else {
        let i = first_at(flat(n), path);
        if i < flat(n).len() {
            assert(same_path(flat(n)[i].path, path));
        }
    }
}

/// A path has no position in what is shown for siblings that do not show it.
pub proof fn lemma_first_at_none(nodes: Seq<NodeView>, path: Seq<u8>)
    requires
        forall|i: int| 0 <= i < nodes.len() ==> !shows(#[trigger] nodes[i], path),
    ensures
        first_at(flat_all(nodes), path) == flat_all(nodes).len(),
    decreases nodes.len(),
{
    if nodes.len() > 0 {
        let ahead = nodes.drop_last();
        assert forall|i: int| 0 <= i < ahead.len() implies !shows(#[trigger] ahead[i], path) by {
            assert(ahead[i] == nodes[i]);
        }
        lemma_first_at_none(ahead, path);
        assert(!shows(nodes[nodes.len() - 1], path));
        lemma_shown_at(nodes.last(), path);
        lemma_first_at(flat(nodes.last()), path);
        lemma_first_at_append(flat_all(ahead), flat(nodes.last()), path);
    }
}

/// Where the first node of a path is shown, if it is shown below a node and not for the
/// node itself.
pub proof fn lemma_first_below(n: NodeView, path: Seq<u8>)
    requires
        shows(n, path),
        !same_path(n.path, path),
    ensures
        n.expanded,
        0 <= first_showing(n.children, path) < n.children.len(),
        shows(n.children[first_showing(n.children, path)], path),
        first_at(flat(n), path) == 1 + flat_all(
            n.children.take(first_showing(n.children, path)),
        ).len() + first_at(flat(n.children[first_showing(n.children, path)]), path),
{
    lemma_shows(n, path);
    lemma_first_showing(n.children, path);
    let k = first_showing(n.children, path);
    assert(k < n.children.len()) by {
        let j = choose|j: int| 0 <= j < n.children.len() && shows(#[trigger] n.children[j], path);
        if k == n.children.len() {
            assert(!shows(n.children[j], path));
        }
    }
    let ahead = n.children.take(k);
    let child = n.children[k];
    assert forall|i: int| 0 <= i < ahead.len() implies !shows(#[trigger] ahead[i], path) by {
        assert(ahead[i] == n.children[i]);
    }
    lemma_first_at_none(ahead, path);
    lemma_flat_all_cut(n.children, k);
    lemma_shown_at(child, path);
    let (a, b, c) = (flat_all(ahead), flat(child), flat_all(n.children.skip(k + 1)));
    lemma_first_at(a, path);
    lemma_first_at(b, path);
    assert(a + b + c =~= a + (b + c));
    lemma_first_at_append(b, c, path);
    lemma_first_at_append(a, b + c, path);
    lemma_first_at_append(seq![n], flat_all(n.children), path);
    assert(seq![n].drop_first() =~= seq![]);
    assert(first_at(seq![n], path) == 1) by {
        assert(first_at(seq![n].drop_first(), path) == 0);
    }
}

/// Whether the depth of the node that a path toggles leaves room for that of its children,
/// if they are to be read.
pub open spec fn target_fits(n: NodeView, path: Seq<u8>) -> bool {
    let node = flat(n)[first_at(flat(n), path)];
    shows(n, path) && node.is_dir && !node.expanded && !node.children_loaded ==> depth_fits(
        node.depth,
        node.path,
    )
}

/// The node that a path toggles is that of the first child for which the path is shown.
pub proof fn lemma_first_child(n: NodeView, path: Seq<u8>, i: int)
    requires
        n.expanded,
        !same_path(n.path, path),
        0 <= i < n.children.len(),
        forall|j: int| 0 <= j < i ==> !shows(#[trigger] n.children[j], path),
        target_fits(n, path),
    ensures
        target_fits(n.children[i], path),
{
    let child = n.children[i];
    if shows(child, path) {
        lemma_shows(n, path);
        lemma_first_below(n, path);
        lemma_first_showing_is(n.children, path, i);
        lemma_flat_all_cut(n.children, i);
        lemma_shown_at(child, path);
        lemma_first_at(flat(child), path);
        assert(flat(n)[first_at(flat(n), path)] == flat(child)[first_at(flat(child), path)]);
    }
}

/// The lines that are shown for a node stand together: those of the node at a position
/// begin there.
pub proof fn lemma_block(n: NodeView, i: int)
    requires
        0 <= i < flat(n).len(),
    ensures
        i + flat(flat(n)[i]).len() <= flat(n).len(),
        flat(n).subrange(i, i + flat(flat(n)[i]).len()) == flat(flat(n)[i]),
    decreases n,
{
    if i == 0 {
        assert(flat(n)[0] == n);
        assert(flat(n).subrange(0, flat(n).len() as int) =~= flat(n));
    } else {
        let below = flat_all(n.children);
        let k = lemma_flat_all_at(n.children, i - 1);
        lemma_flat_all_cut(n.children, k);
        let child = n.children[k];
        let offset = flat_all(n.children.take(k)).len() as int;
        let j = i - 1 - offset;
        lemma_block(child, j);
        let node = flat(n)[i];
        assert(node == flat(child)[j]);
        let size = flat(node).len() as int;
        assert forall|m: int| 0 <= m < size implies #[trigger] flat(n)[i + m] == flat(node)[m] by {
            assert(flat(n)[i + m] == below[i - 1 + m]);
            assert(below[i - 1 + m] == flat(child)[j + m]);
            assert(flat(child).subrange(j, j + size)[m] == flat(node)[m]);
        }
        assert(flat(n).subrange(i, i + size) =~= flat(node));
    }
}

/// Lines, with those from a position on replaced by others.
pub open spec fn spliced(all: Seq<Line>, i: int, size: int, middle: Seq<Line>) -> Seq<Line> {
    all.take(i) + middle + all.skip(i + size)
}

proof fn lemma_lines_append(a: Seq<NodeView>, b: Seq<NodeView>, c: Seq<NodeView>)
    ensures
        lines(a + b + c) == lines(a) + lines(b) + lines(c),
{
    assert(lines(a + b + c) =~= lines(a) + lines(b) + lines(c));
}

proof fn lemma_spliced_within(
    a: Seq<Line>,
    b: Seq<Line>,
    c: Seq<Line>,
    j: int,
    size: int,
    middle: Seq<Line>,
)
    requires
        0 <= j <= j + size <= b.len(),
    ensures
        spliced(a + b + c, a.len() + j, size, middle) == a + spliced(b, j, size, middle) + c,
{
    assert((a + b + c).take(a.len() + j) =~= a + b.take(j));
    assert((a + b + c).skip(a.len() + j + size) =~= b.skip(j + size) + c);
    assert(spliced(a + b + c, a.len() + j, size, middle) =~= a + spliced(b, j, size, middle) + c);
}

/// What is shown for a node and for it toggled, around one of its children.
proof fn lemma_flat_around(n: NodeView, k: int, child: NodeView)
    requires
        n.expanded,
        0 <= k < n.children.len(),
    ensures
        ({
            let now = NodeView { children: n.children.update(k, child), ..n };
            let a = lines(seq![n] + flat_all(n.children.take(k)));
            let c = lines(flat_all(n.children.skip(k + 1)));
            &&& lines(flat(n)) == a + lines(flat(n.children[k])) + c
            &&& lines(flat(now)) == a + lines(flat(child)) + c
        }),
{
    let now = NodeView { children: n.children.update(k, child), ..n };
    let ahead = flat_all(n.children.take(k));
    let behind = flat_all(n.children.skip(k + 1));
    lemma_flat_all_cut(n.children, k);
    lemma_flat_all_cut(now.children, k);
    assert(now.children.take(k) =~= n.children.take(k));
    assert(now.children.skip(k + 1) =~= n.children.skip(k + 1));
    assert(flat(n) =~= (seq![n] + ahead) + flat(n.children[k]) + behind);
    assert(flat(now) =~= (seq![now] + ahead) + flat(child) + behind);
    lemma_lines_append(seq![n] + ahead, flat(n.children[k]), behind);
    lemma_lines_append(seq![now] + ahead, flat(child), behind);
    assert(lines(seq![now] + ahead) =~= lines(seq![n] + ahead));
}

/// Toggling a path changes nothing that is shown but the lines of its first node: what
/// stands before them and after them stays.
pub proof fn toggle_changes_block(n: NodeView, path: Seq<u8>, disk: Disk)
    requires
        shows(n, path),
    ensures
        0 <= first_at(flat(n), path) < flat(n).len(),
        lines(flat(toggled_at(n, path, disk))) == spliced(
            lines(flat(n)),
            first_at(flat(n), path),
            flat(flat(n)[first_at(flat(n), path)]).len() as int,
            lines(flat(toggled(flat(n)[first_at(flat(n), path)], disk))),
        ),
    decreases n,
{
    let i = first_at(flat(n), path);
    lemma_shown_at(n, path);
    lemma_first_at(flat(n), path);
    if same_path(n.path, path) {
        assert(flat(n)[0] == n);
        assert(i == 0);
        let middle = lines(flat(toggled(n, disk)));
        assert(lines(flat(n)).take(0) + middle + lines(flat(n)).skip(flat(n).len() as int)
            =~= middle);
    } else {
        lemma_first_below(n, path);
        let k = first_showing(n.children, path);
        let child = n.children[k];
        let j = first_at(flat(child), path);
        toggle_changes_block(child, path, disk);
        lemma_flat_around(n, k, toggled_at(child, path, disk));
        lemma_block(child, j);
        let node = flat(child)[j];
        assert(flat(n)[i] == node) by {
            lemma_flat_all_cut(n.children, k);
        }
        lemma_spliced_within(
            lines(seq![n] + flat_all(n.children.take(k))),
            lines(flat(child)),
            lines(flat_all(n.children.skip(k + 1))),
            j,
            flat(node).len() as int,
            lines(flat(toggled(node, disk))),
        );
    }
}

/// The first sibling for which a path is shown, by what it is.
proof fn lemma_first_showing_is(nodes: Seq<NodeView>, path: Seq<u8>, k: int)
    requires
        0 <= k < nodes.len(),
        shows(nodes[k], path),
        forall|i: int| 0 <= i < k ==> !shows(#[trigger] nodes[i], path),
    ensures
        first_showing(nodes, path) == k,
{
    lemma_first_showing(nodes, path);
    let j = first_showing(nodes, path);
    if j < k {
        assert(!shows(nodes[j], path));
    }
}

/// A path that is toggled is still shown, and by the same child.
pub proof fn toggled_at_still_shown(n: NodeView, path: Seq<u8>, disk: Disk)
    requires
        shows(n, path),
    ensures
        shows(toggled_at(n, path, disk), path),
        !same_path(n.path, path) ==> first_showing(toggled_at(n, path, disk).children, path)
            == first_showing(n.children, path),
    decreases n,
{
    let now = toggled_at(n, path, disk);
    if !same_path(n.path, path) {
        lemma_first_below(n, path);
        lemma_first_showing(n.children, path);
        let k = first_showing(n.children, path);
        toggled_at_still_shown(n.children[k], path, disk);
        assert forall|i: int| 0 <= i < k implies !shows(#[trigger] now.children[i], path) by {
            assert(now.children[i] == n.children[i]);
        }
        lemma_first_showing_is(now.children, path, k);
        assert(shows(now.children[k], path));
    }
    lemma_shows(now, path);
}

/// Toggling a node twice leaves it as it was, but that its children are read now.
pub proof fn toggled_twice(n: NodeView, disk: Disk, later: Disk)
    requires
        n.is_dir && n.expanded ==> n.children_loaded,
    ensures
        toggled(toggled(n, disk), later) == if n.is_dir && !n.expanded {
            loaded(n, disk)
        } else {
            n
        },
{
}

/// Toggling a path twice shows again what was shown before. If the path's directory was
/// read before, or it is a file, the whole tree is as it was.
pub proof fn toggled_at_twice(n: NodeView, path: Seq<u8>, disk: Disk, later: Disk)
    requires
        shows(n, path),
        ({
            let node = flat(n)[first_at(flat(n), path)];
            node.is_dir && node.expanded ==> node.children_loaded
        }),
    ensures
        lines(flat(toggled_at(toggled_at(n, path, disk), path, later))) == lines(flat(n)),
        ({
            let node = flat(n)[first_at(flat(n), path)];
            node.children_loaded || !node.is_dir ==> toggled_at(
                toggled_at(n, path, disk),
                path,
                later,
            ) == n
        }),
    decreases n,
{
    let once = toggled_at(n, path, disk);
    let twice = toggled_at(once, path, later);
    lemma_shown_at(n, path);
    lemma_first_at(flat(n), path);
    if same_path(n.path, path) {
        toggled_twice(n, disk, later);
        assert(flat(n)[0] == n);
        if n.is_dir && !n.expanded {
            assert(lines(flat(twice)) =~= lines(flat(n)));
        }
    } else {
        lemma_first_below(n, path);
        toggled_at_still_shown(n, path, disk);
        let k = first_showing(n.children, path);
        let child = n.children[k];
        lemma_flat_all_cut(n.children, k);
        lemma_shown_at(child, path);
        lemma_first_at(flat(child), path);
        assert(flat(n)[first_at(flat(n), path)] == flat(child)[first_at(flat(child), path)]);
        toggled_at_twice(child, path, disk, later);
        let after = toggled_at(toggled_at(child, path, disk), path, later);
        assert(once.children[k] == toggled_at(child, path, disk));
        assert(twice.children =~= n.children.update(k, after));
        lemma_flat_around(n, k, after);
        if after == child {
            assert(twice.children =~= n.children);
        }
    }
}

/// What toggling makes of a tree depends on the disk only for the directory that is
/// expanded for the first time.
pub proof fn toggled_at_reads(n: NodeView, path: Seq<u8>, disk: Disk, other: Disk)
    requires
        shows(n, path),
        ({
            let node = flat(n)[first_at(flat(n), path)];
            node.is_dir && !node.expanded && !node.children_loaded ==> agree_at(
                disk,
                other,
                components_of(node.path),
            )
        }),
    ensures
        toggled_at(n, path, disk) == toggled_at(n, path, other),
    decreases n,
{
    lemma_shown_at(n, path);
    lemma_first_at(flat(n), path);
    if same_path(n.path, path) {
        assert(flat(n)[0] == n);
    } else {
        lemma_first_below(n, path);
        let k = first_showing(n.children, path);
        let child = n.children[k];
        lemma_flat_all_cut(n.children, k);
        lemma_shown_at(child, path);
        lemma_first_at(flat(child), path);
        assert(flat(n)[first_at(flat(n), path)] == flat(child)[first_at(flat(child), path)]);
        toggled_at_reads(child, path, disk, other);
    }
}

/// What is shown for two lists of siblings, one after the other.
pub proof fn shown_for_more(a: Seq<NodeView>, b: Seq<NodeView>)
    ensures
        flat_all(a + b) == flat_all(a) + flat_all(b),
    decreases b.len(),
{
    if b.len() == 0 {
        assert(a + b =~= a);
        assert(flat_all(a) + flat_all(b) =~= flat_all(a));
    } else {
        assert((a + b).drop_last() =~= a + b.drop_last());
        assert((a + b).last() == b.last());
        shown_for_more(a, b.drop_last());
        assert(flat_all(a + b) =~= flat_all(a) + flat_all(b));
    }
}

/// A node is shown first, and alone while it is collapsed; behind an expanded one, directory
/// or not, all follows that is shown for its children, child by child.
pub proof fn shown_for_node(n: NodeView)
    ensures
        !n.expanded ==> flat(n) == seq![n],
        n.expanded ==> flat(n) == seq![n] + flat_all(n.children),
        flat_all(seq![n]) == flat(n),
        flat_all(seq![]) == Seq::<NodeView>::empty(),
{
    let nodes = seq![n];
    let none: Seq<NodeView> = seq![];
    assert(nodes.drop_last() =~= none);
    assert(flat_all(none) =~= none);
    assert(flat_all(nodes) == flat_all(nodes.drop_last()) + flat(nodes.last()));
    assert(flat_all(nodes) =~= flat(n));
}

}
