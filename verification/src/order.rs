//! The order of siblings: directories first, then by name.

use vstd::prelude::*;

use crate::node::{views, TreeNode};
use crate::text::{
    chars_less, lowercase, lowercase_plain, lowercase_text, text_less, text_less_irreflexive,
    text_less_total, text_less_transitive, to_chars,
};
use crate::tree::{key_before, node_before, ordered, placed, sorted, NodeView};

verus! {

/// What does not come after `b` goes before all that `b` goes before.
pub proof fn before_from_left(a: NodeView, b: NodeView, c: NodeView)
    requires
        !node_before(b, a),
        node_before(b, c),
    ensures
        node_before(a, c),
{
    let (ka, kb, kc) = (lowercase_text(a.name), lowercase_text(b.name), lowercase_text(c.name));
    text_less_total(ka, kb);
    if a.is_dir == b.is_dir && b.is_dir == c.is_dir && ka != kb {
        text_less_transitive(ka, kb, kc);
    }
}

/// No sibling goes before one that goes before it.
pub proof fn before_asymmetric(a: NodeView, b: NodeView)
    requires
        node_before(a, b),
    ensures
        !node_before(b, a),
{
    let (ka, kb) = (lowercase_text(a.name), lowercase_text(b.name));
    if a.is_dir == b.is_dir && text_less(kb, ka) {
        text_less_transitive(ka, kb, ka);
        text_less_irreflexive(ka);
    }
}

/// Placing a node inserts it behind all that go before it, and ahead of the first that
/// does not.
pub proof fn lemma_placed(x: NodeView, nodes: Seq<NodeView>) -> (p: int)
    ensures
        0 <= p <= nodes.len(),
        placed(x, nodes) == nodes.insert(p, x),
        forall|i: int| 0 <= i < p ==> node_before(#[trigger] nodes[i], x),
        p < nodes.len() ==> !node_before(nodes[p], x),
    decreases nodes.len(),
{
    if nodes.len() == 0 || !node_before(nodes[0], x) {
        assert(seq![x] + nodes =~= nodes.insert(0, x));
        0
    } else {
        let rest = nodes.drop_first();
        let q = lemma_placed(x, rest);
        assert(seq![nodes[0]] + rest.insert(q, x) =~= nodes.insert(q + 1, x));
        assert forall|i: int| 0 <= i < q + 1 implies node_before(#[trigger] nodes[i], x) by {
            if i > 0 {
                assert(nodes[i] == rest[i - 1]);
            }
        }
        assert(q < rest.len() ==> rest[q] == nodes[q + 1]);
        q + 1
    }
}

/// The position at which a node is placed is the only one of its kind.
proof fn lemma_placed_at(x: NodeView, nodes: Seq<NodeView>, p: int)
    requires
        0 <= p <= nodes.len(),
        forall|i: int| 0 <= i < p ==> node_before(#[trigger] nodes[i], x),
        p < nodes.len() ==> !node_before(nodes[p], x),
    ensures
        placed(x, nodes) == nodes.insert(p, x),
{
    let q = lemma_placed(x, nodes);
    if q < p {
        assert(node_before(nodes[q], x));
    } else if p < q {
        assert(node_before(nodes[p], x));
    }
}

proof fn lemma_placed_ordered(x: NodeView, nodes: Seq<NodeView>)
    requires
        ordered(nodes),
    ensures
        ordered(placed(x, nodes)),
{
    let p = lemma_placed(x, nodes);
    let all = nodes.insert(p, x);
    assert forall|i: int, j: int| 0 <= i < j < all.len() implies !node_before(
        #[trigger] all[j],
        #[trigger] all[i],
    ) by {
        if i < p && j == p {
            before_asymmetric(nodes[i], x);
        } else if i == p {
            assert(all[j] == nodes[j - 1]);
            if node_before(nodes[j - 1], x) {
                if p < j - 1 {
                    assert(!node_before(nodes[j - 1], nodes[p]));
                    before_from_left(nodes[p], nodes[j - 1], x);
                }
            }
        } else {
            let a = if i < p { i } else { i - 1 };
            let b = if j < p { j } else { j - 1 };
            assert(all[i] == nodes[a]);
            assert(all[j] == nodes[b]);
        }
    }
}

/// Sorted siblings are in their order: no file stands ahead of a directory, and within
/// each of the two kinds no name, in lower case, ahead of a smaller one.
pub proof fn sorted_is_ordered(nodes: Seq<NodeView>)
    ensures
        ordered(sorted(nodes)),
    decreases nodes.len(),
{
    if nodes.len() > 0 {
        sorted_is_ordered(nodes.drop_first());
        lemma_placed_ordered(nodes[0], sorted(nodes.drop_first()));
    }
}

/// Sorting neither adds nor drops a node.
pub proof fn sorted_is_permutation(nodes: Seq<NodeView>)
    ensures
        sorted(nodes).to_multiset() == nodes.to_multiset(),
        sorted(nodes).len() == nodes.len(),
    decreases nodes.len(),
{
    broadcast use vstd::seq_lib::group_to_multiset_ensures;

    if nodes.len() > 0 {
        let rest = nodes.drop_first();
        sorted_is_permutation(rest);
        let p = lemma_placed(nodes[0], sorted(rest));
        sorted(rest).insert_ensures(p, nodes[0]);
        assert(nodes =~= rest.insert(0, nodes[0]));
        rest.insert_ensures(0, nodes[0]);
        vstd::seq_lib::to_multiset_insert(sorted(rest), p, nodes[0]);
        vstd::seq_lib::to_multiset_insert(rest, 0, nodes[0]);
    }
}

/// Whether neither of two siblings goes before the other.
pub open spec fn tied(x: NodeView) -> spec_fn(NodeView) -> bool {
    |n: NodeView| !node_before(n, x) && !node_before(x, n)
}

/// Sorting is stable: siblings that tie keep the order in which they came.
pub proof fn sorted_is_stable(nodes: Seq<NodeView>, x: NodeView)
    ensures
        sorted(nodes).filter(tied(x)) == nodes.filter(tied(x)),
    decreases nodes.len(),
{
    let f = tied(x);
    if nodes.len() > 0 {
        let rest = nodes.drop_first();
        let first = nodes[0];
        let s = sorted(rest);
        sorted_is_stable(rest, x);
        let p = lemma_placed(first, s);
        let (ahead, behind) = (s.take(p), s.skip(p));
        assert(s =~= ahead + behind);
        assert(s.insert(p, first) =~= ahead + (seq![first] + behind));
        assert(nodes =~= seq![first] + rest);
        Seq::filter_distributes_over_add(ahead, behind, f);
        Seq::filter_distributes_over_add(ahead, seq![first] + behind, f);
        Seq::filter_distributes_over_add(seq![first], behind, f);
        Seq::filter_distributes_over_add(seq![first], rest, f);
        if f(first) {
            assert forall|i: int| 0 <= i < ahead.len() implies !f(#[trigger] ahead[i]) by {
                assert(node_before(s[i], first));
                if f(ahead[i]) {
                    // `s[i]` goes before `first`, which does not go before `x`
                    before_from_left_tied(s[i], first, x);
                }
            }
            ahead.lemma_all_neg_filter_empty(f);
            assert(ahead.filter(f) =~= seq![]);
            assert(s.filter(f) =~= behind.filter(f));
            assert(sorted(nodes).filter(f) =~= seq![first].filter(f) + behind.filter(f));
        } else {
            assert(seq![first].filter(f) =~= seq![]) by {
                seq![first].lemma_all_neg_filter_empty(f);
            }
            assert(sorted(nodes).filter(f) =~= s.filter(f));
            assert(nodes.filter(f) =~= rest.filter(f));
        }
    }
}

proof fn before_from_left_tied(a: NodeView, b: NodeView, x: NodeView)
    requires
        node_before(a, b),
        tied(x)(b),
    ensures
        node_before(a, x),
{
    let (ka, kb, kx) = (lowercase_text(a.name), lowercase_text(b.name), lowercase_text(x.name));
    text_less_total(kb, kx);
}

/// Whether one sibling goes before another, by their kinds and their names in lower case.
pub fn goes_before(a_dir: bool, a: &Vec<char>, b_dir: bool, b: &Vec<char>) -> (r: bool)
    ensures
        r == key_before(a_dir, a@, b_dir, b@),
{
    if a_dir == b_dir {
        chars_less(a, b)
    } else {
        a_dir
    }
}

/// The position at which `node` is placed among nodes that are in their order.
fn find_place(node: &TreeNode, key: &Vec<char>, nodes: &Vec<TreeNode>, keys: &Vec<Vec<char>>) -> (p:
    usize)
    requires
        key@ == lowercase_text(node@.name),
        keys@.len() == nodes@.len(),
        forall|i: int|
            0 <= i < keys@.len() ==> (#[trigger] keys@[i])@ == lowercase_text(nodes@[i]@.name),
        ordered(views(nodes@)),
    ensures
        p <= nodes@.len(),
        placed(node@, views(nodes@)) == views(nodes@).insert(p as int, node@),
{
    let ghost all = views(nodes@);
    let mut low: usize = 0;
    let mut high: usize = nodes.len();
    while low < high
        invariant
            low <= high <= nodes@.len(),
            all == views(nodes@),
            ordered(all),
            key@ == lowercase_text(node@.name),
            keys@.len() == nodes@.len(),
            forall|i: int|
                0 <= i < keys@.len() ==> (#[trigger] keys@[i])@ == lowercase_text(nodes@[i]@.name),
            forall|i: int| 0 <= i < low ==> node_before(#[trigger] all[i], node@),
            high < nodes@.len() ==> !node_before(all[high as int], node@),
        decreases high - low,
    {
        let mid = low + (high - low) / 2;
        let before = goes_before(nodes[mid].is_dir, &keys[mid], node.is_dir, key);
        assert(all[mid as int] == nodes@[mid as int]@);
        assert(before == node_before(all[mid as int], node@));
        if before {
            proof {
                assert forall|i: int| 0 <= i < mid + 1 implies node_before(
                    #[trigger] all[i],
                    node@,
                ) by {
                    if low <= i < mid {
                        before_from_left(all[i], all[mid as int], node@);
                    }
                }
            }
            low = mid + 1;
        } else {
            high = mid;
        }
    }
    proof {
        lemma_placed_at(node@, all, low as int);
    }
    low
}

/// Puts siblings in their order. Names of ASCII characters go by their plain lower case.
pub fn sort_nodes(nodes: Vec<TreeNode>) -> (r: Vec<TreeNode>)
    ensures
        views(r@) == sorted(views(nodes@)),
        forall|i: int| 0 <= i < nodes@.len() ==> lowercase_plain((#[trigger] views(nodes@)[i]).name),
{
    let ghost all = views(nodes@);
    let mut rest = nodes;
    let mut r: Vec<TreeNode> = Vec::new();
    let mut keys: Vec<Vec<char>> = Vec::new();
    assert(all.skip(all.len() as int) =~= seq![]);
    assert(views(r@) =~= seq![]);
    loop
        invariant
            all == views(nodes@),
            rest@.len() <= all.len(),
            views(rest@) == all.take(rest@.len() as int),
            views(r@) == sorted(all.skip(rest@.len() as int)),
            forall|i: int|
                rest@.len() <= i < all.len() ==> lowercase_plain((#[trigger] all[i]).name),
            keys@.len() == r@.len(),
            forall|i: int|
                0 <= i < keys@.len() ==> (#[trigger] keys@[i])@ == lowercase_text(r@[i]@.name),
        decreases rest@.len(),
    {
        let ghost left = views(rest@);
        match rest.pop() {
            None => {
                assert(all.skip(0) =~= all);
                return r;
            },
            Some(node) => {
                let ghost n = rest@.len() as int;
                proof {
                    assert(views(rest@) =~= all.take(n));
                    assert(left[n] == node@);
                    assert(node@ == all[n]);
                    assert(all.skip(n).drop_first() =~= all.skip(n + 1));
                    sorted_is_ordered(all.skip(n + 1));
                }
                let lower = lowercase(node.name.as_str());
                let key = to_chars(lower.as_str());
                let p = find_place(&node, &key, &r, &keys);
                let ghost before = views(r@);
                r.insert(p, node);
                keys.insert(p, key);
                assert(views(r@) =~= before.insert(p as int, all[n]));
            },
        }
    }
}

}
