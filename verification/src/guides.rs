//! Which lines are the last of their siblings.

use vstd::prelude::*;

use crate::distinct::shown_below;
use crate::shown::lemma_flat_all_cut;
use crate::tree::{child_of, flat, flat_all, last_flags, tree_last_flags, well_formed, NodeView};

verus! {

/// Whether the sibling that comes next after the node at a position is at another: it is
/// as deep, and all between the two is deeper.
pub open spec fn next_sibling(items: Seq<NodeView>, i: int, j: int) -> bool {
    &&& i < j < items.len()
    &&& items[j].depth == items[i].depth
    &&& forall|m: int| i < m < j ==> (#[trigger] items[m]).depth > items[i].depth
}

/// Whether a sibling comes after the node at a position.
pub open spec fn has_next(items: Seq<NodeView>, i: int) -> bool {
    exists|j: int| #[trigger] next_sibling(items, i, j)
}

/// Within a part that is followed by something less deep, siblings are found in the part.
proof fn lemma_has_next_within(a: Seq<NodeView>, b: Seq<NodeView>, c: Seq<NodeView>, p: int)
    requires
        0 <= p < b.len(),
        c.len() > 0 ==> c[0].depth < b[p].depth,
    ensures
        has_next(a + b + c, a.len() + p) == has_next(b, p),
{
    let all = a + b + c;
    let n = a.len() as int;
    assert forall|m: int| 0 <= m < b.len() implies #[trigger] b[m] == all[n + m] by {}
    if has_next(all, n + p) {
        let j = choose|j: int| #[trigger] next_sibling(all, n + p, j);
        let end = n + b.len();
        if j >= end {
            assert(all[end] == c[0]);
        } else {
            assert(b[j - n] == all[j]);
            assert forall|m: int| p < m < j - n implies (#[trigger] b[m]).depth > b[p].depth by {
                assert(all[n + m].depth > all[n + p].depth);
            }
            assert(next_sibling(b, p, j - n));
        }
    }
    if has_next(b, p) {
        let j = choose|j: int| #[trigger] next_sibling(b, p, j);
        assert forall|m: int| n + p < m < n + j implies (#[trigger] all[m]).depth > all[n + p].depth by {
            assert(b[m - n] == all[m]);
        }
        assert(b[j] == all[n + j]);
        assert(next_sibling(all, n + p, n + j));
    }
}

/// The first of a part, below which the rest of the part lies, has a sibling after it if
/// anything as deep follows the part.
proof fn lemma_has_next_head(a: Seq<NodeView>, b: Seq<NodeView>, c: Seq<NodeView>)
    requires
        b.len() > 0,
        forall|q: int| 0 < q < b.len() ==> (#[trigger] b[q]).depth > b[0].depth,
        c.len() > 0 ==> c[0].depth == b[0].depth,
    ensures
        has_next(a + b + c, a.len() as int) == (c.len() > 0),
{
    let all = a + b + c;
    let n = a.len() as int;
    let end = n + b.len();
    assert(all[n] == b[0]);
    if c.len() > 0 {
        assert(all[end] == c[0]);
        assert forall|m: int| n < m < end implies (#[trigger] all[m]).depth > all[n].depth by {
            assert(b[m - n] == all[m]);
        }
        assert(next_sibling(all, n, end));
    } else if has_next(all, n) {
        let j = choose|j: int| #[trigger] next_sibling(all, n, j);
        assert(b[j - n] == all[j]);
    }
}

/// What is shown for siblings begins with the first of them.
proof fn lemma_flat_all_first(nodes: Seq<NodeView>)
    requires
        nodes.len() > 0,
    ensures
        flat_all(nodes).len() > 0,
        flat_all(nodes)[0] == nodes[0],
{
    lemma_flat_all_cut(nodes, 0);
    assert(flat_all(nodes.take(0)) =~= seq![]);
    assert(flat(nodes[0])[0] == nodes[0]);
}

proof fn lemma_last_flags(nodes: Seq<NodeView>, k: int, depth: nat)
    requires
        0 <= k <= nodes.len(),
        forall|i: int|
            0 <= i < nodes.len() ==> well_formed(#[trigger] nodes[i]) && nodes[i].depth == depth,
    ensures
        last_flags(nodes, k).len() == flat_all(nodes.take(k)).len(),
        flat_all(nodes.take(k)).len() <= flat_all(nodes).len(),
        forall|i: int|
            0 <= i < last_flags(nodes, k).len() ==> (#[trigger] last_flags(nodes, k)[i]).0
                == flat_all(nodes)[i].path && last_flags(nodes, k)[i].1 == !has_next(
                flat_all(nodes),
                i,
            ),
    decreases nodes, k,
{
    if k == 0 {
        assert(nodes.take(0) =~= seq![]);
    } else {
        let node = nodes[k - 1];
        let (a, b, c) = (flat_all(nodes.take(k - 1)), flat(node), flat_all(nodes.skip(k)));
        let all = flat_all(nodes);
        let n = a.len() as int;
        lemma_last_flags(nodes, k - 1, depth);
        lemma_flat_all_cut(nodes, k - 1);
        assert(all == a + b + c);
        assert(nodes.take(k).drop_last() =~= nodes.take(k - 1));
        assert(nodes.take(k).last() == node);
        assert(well_formed(node));
        if k < nodes.len() {
            lemma_flat_all_first(nodes.skip(k));
            assert(nodes.skip(k)[0] == nodes[k]);
        }
        assert(c.len() > 0 <==> k < nodes.len());
        assert forall|q: int| 0 < q < b.len() implies (#[trigger] b[q]).depth > b[0].depth by {
            shown_below(node, q);
            assert(b[0] == node);
        }
        lemma_has_next_head(a, b, c);
        let flags = last_flags(nodes, k);
        let below = last_flags(node.children, node.children.len() as int);
        if node.expanded {
            assert forall|i: int| 0 <= i < node.children.len() implies well_formed(
                #[trigger] node.children[i],
            ) && node.children[i].depth == depth + 1 by {
                assert(child_of(node.children[i], node.path, node.depth));
            }
            lemma_last_flags(node.children, node.children.len() as int, depth + 1);
            assert(node.children.take(node.children.len() as int) =~= node.children);
        }
        assert forall|i: int| 0 <= i < flags.len() implies (#[trigger] flags[i]).0 == all[i].path
            && flags[i].1 == !has_next(all, i) by {
            if i < n {
                assert(flags[i] == last_flags(nodes, k - 1)[i]);
            } else if i == n {
                assert(all[i] == b[0] && b[0] == node);
                assert(flags[i] == (node.path, k == nodes.len()));
            } else {
                let t = i - n - 1;
                assert(flags[i] == below[t]);
                assert(all[i] == b[t + 1]);
                let rest = flat_all(node.children);
                assert(b[t + 1] == rest[t]);
                shown_below(node, t + 1);
                lemma_has_next_within(a, b, c, t + 1);
                let nothing: Seq<NodeView> = seq![];
                assert(b =~= seq![node] + rest + nothing);
                lemma_has_next_within(seq![node], rest, nothing, t);
            }
        }
    }
}

/// There is one flag for each line, in the order of the lines, and it is set for those
/// lines after which no sibling comes; so it is for the root.
pub proof fn flags_tell_last(n: NodeView)
    requires
        well_formed(n),
    ensures
        tree_last_flags(n).len() == flat(n).len(),
        forall|i: int|
            0 <= i < flat(n).len() ==> (#[trigger] tree_last_flags(n)[i]).0 == flat(n)[i].path
                && tree_last_flags(n)[i].1 == !has_next(flat(n), i),
        tree_last_flags(n)[0].1,
{
    let all = flat(n);
    let flags = tree_last_flags(n);
    let nothing: Seq<NodeView> = seq![];
    assert(all[0] == n);
    assert(all =~= nothing + all + nothing);
    assert forall|q: int| 0 < q < all.len() implies (#[trigger] all[q]).depth > all[0].depth by {
        shown_below(n, q);
    }
    lemma_has_next_head(nothing, all, nothing);
    if n.expanded {
        let rest = flat_all(n.children);
        assert forall|i: int| 0 <= i < n.children.len() implies well_formed(
            #[trigger] n.children[i],
        ) && n.children[i].depth == n.depth + 1 by {
            assert(child_of(n.children[i], n.path, n.depth));
        }
        lemma_last_flags(n.children, n.children.len() as int, n.depth + 1);
        assert(n.children.take(n.children.len() as int) =~= n.children);
        assert(all =~= seq![n] + rest + nothing);
        assert forall|i: int| 0 <= i < all.len() implies (#[trigger] flags[i]).0 == all[i].path
            && flags[i].1 == !has_next(all, i) by {
            if i > 0 {
                lemma_has_next_within(seq![n], rest, nothing, i - 1);
                assert(all[i] == rest[i - 1]);
            }
        }
    }
}

proof fn lemma_flag_paths(nodes: Seq<NodeView>, k: int)
    requires
        0 <= k <= nodes.len(),
    ensures
        last_flags(nodes, k).len() == flat_all(nodes.take(k)).len(),
        forall|i: int|
            0 <= i < last_flags(nodes, k).len() ==> (#[trigger] last_flags(nodes, k)[i]).0
                == flat_all(nodes.take(k))[i].path,
    decreases nodes, k,
{
    if k == 0 {
        assert(nodes.take(0) =~= seq![]);
    } else {
        let node = nodes[k - 1];
        let ahead = nodes.take(k - 1);
        lemma_flag_paths(nodes, k - 1);
        assert(nodes.take(k).drop_last() =~= ahead);
        assert(nodes.take(k).last() == node);
        let flags = last_flags(nodes, k);
        let all = flat_all(nodes.take(k));
        let n = flat_all(ahead).len() as int;
        let below = last_flags(node.children, node.children.len() as int);
        assert(all == flat_all(ahead) + flat(node));
        if node.expanded {
            assert(flat(node) == seq![node] + flat_all(node.children));
            lemma_flag_paths(node.children, node.children.len() as int);
            assert(node.children.take(node.children.len() as int) =~= node.children);
        }
        assert forall|i: int| 0 <= i < flags.len() implies (#[trigger] flags[i]).0 == all[i].path by {
            if i < n {
                assert(flags[i] == last_flags(nodes, k - 1)[i]);
                assert(all[i] == flat_all(ahead)[i]);
            } else if i == n {
                assert(all[i] == flat(node)[0]);
            } else {
                assert(flags[i] == below[i - n - 1]);
                assert(all[i] == flat_all(node.children)[i - n - 1]);
            }
        }
    }
}

/// There is one flag for each line of a tree, whatever its shape, in the order of the
/// lines and under their paths. The root's is set.
pub proof fn flags_follow_lines(n: NodeView)
    ensures
        tree_last_flags(n).len() == flat(n).len(),
        forall|i: int|
            0 <= i < flat(n).len() ==> (#[trigger] tree_last_flags(n)[i]).0 == flat(n)[i].path,
        tree_last_flags(n)[0].1,
{
    if n.expanded {
        let all = flat(n);
        let flags = tree_last_flags(n);
        lemma_flag_paths(n.children, n.children.len() as int);
        assert(n.children.take(n.children.len() as int) =~= n.children);
        assert forall|i: int| 0 <= i < all.len() implies (#[trigger] flags[i]).0 == all[i].path by {
            if i > 0 {
                assert(all[i] == flat_all(n.children)[i - 1]);
            }
        }
    }
}

}
