//! The tabs that a tree holds, as a multiset, and how the operations of a
//! [`Tree`](crate::Tree) change them.

use vstd::multiset::Multiset;
use vstd::prelude::*;

use super::layout::{
    desc, in_subtree, layout_wf, lemma_child_subtree, lemma_children_disjoint,
    lemma_desc_children, lemma_subtree_cases, lemma_subtree_parent, lemma_subtree_self, level_width,
    node_at, parent_pos, sibling_pos, subtree_moved,
};
use super::node::Node;
use super::{
    all_tabs, pushed_to_first_leaf, pushed_to_focused_leaf, removed_leaf, removed_tab,
    single_leaf, split_new_pos, split_old_pos, split_shape, tab_appended, tab_bag, tab_inserted,
    tab_removed, tabs_upto, NodeIndex, Split,
};

verus! {

/// The tabs held in the subtree rooted at position `x`, following split nodes down
/// from `x`.
pub open spec fn subtree_tabs<Tab>(nodes: Seq<Node<Tab>>, x: int) -> Multiset<Tab>
    decreases nodes.len() - x,
{
    if 0 <= x < nodes.len() {
        if nodes[x].is_split_node() {
            let left = if 2 * x + 1 < nodes.len() {
                subtree_tabs(nodes, 2 * x + 1)
            } else {
                Multiset::empty()
            };
            let right = if 2 * x + 2 < nodes.len() {
                subtree_tabs(nodes, 2 * x + 2)
            } else {
                Multiset::empty()
            };
            left.add(right)
        } else {
            nodes[x].tab_seq().to_multiset()
        }
    } else {
        Multiset::empty()
    }
}

/// The tabs held by a tree, following split nodes down from the root.
pub open spec fn tree_tabs<Tab>(nodes: Seq<Node<Tab>>) -> Multiset<Tab> {
    subtree_tabs(nodes, 0)
}

/// Every non-empty node other than the root has a split node as parent.
pub open spec fn parents_split<Tab>(nodes: Seq<Node<Tab>>) -> bool {
    forall|i: int| 0 < i < nodes.len() && !(#[trigger] nodes[i] is Empty) ==> nodes[parent_pos(i)].is_split_node()
}

/// A node without tabs contributes no tab.
pub proof fn lemma_empty_tabs<Tab>()
    ensures
        Seq::<Tab>::empty().to_multiset() == Multiset::<Tab>::empty(),
{
    broadcast use vstd::seq_lib::group_to_multiset_ensures;
    assert(Seq::<Tab>::empty().to_multiset().len() == 0);
    broadcast use vstd::multiset::group_multiset_axioms;
    assert(Seq::<Tab>::empty().to_multiset() =~= Multiset::<Tab>::empty());
}

/// A child of a position in the subtree of `x` is in the subtree of `x`.
pub proof fn lemma_subtree_child_of(x: int, p: int, q: int)
    requires
        in_subtree(x, p),
        q == 2 * p + 1 || q == 2 * p + 2,
    ensures
        in_subtree(x, q),
{
    let (d, k) = choose|d: nat, k: int| 0 <= k < level_width(d) && p == desc(x, d, k);
    lemma_desc_children(x, d, k);
    assert(level_width(d + 1) == 2 * level_width(d));
    if q == 2 * p + 1 {
        assert(q == desc(x, d + 1, 2 * k));
    } else {
        assert(q == desc(x, d + 1, 2 * k + 1));
    }
}

/// A position is the left or the right child of its parent.
pub proof fn lemma_child_of_parent(q: int)
    requires
        q > 0,
    ensures
        q == 2 * parent_pos(q) + 1 || q == 2 * parent_pos(q) + 2,
        0 <= parent_pos(q) < q,
{
}

/// Subtrees nest: a position below `y`, itself below `x`, is below `x`.
pub proof fn lemma_subtree_trans(x: int, y: int, q: int)
    requires
        y >= 0,
        in_subtree(x, y),
        in_subtree(y, q),
    ensures
        in_subtree(x, q),
    decreases q - y,
{
    if q != y {
        lemma_subtree_parent(y, q);
        lemma_child_of_parent(q);
        if parent_pos(q) != y {
            lemma_subtree_parent(y, parent_pos(q));
        }
        lemma_subtree_trans(x, y, parent_pos(q));
        lemma_subtree_child_of(x, parent_pos(q), q);
    }
}

/// Every position lies in the subtree of the root.
pub proof fn lemma_in_root_subtree(p: int)
    requires
        p >= 0,
    ensures
        in_subtree(0, p),
    decreases p,
{
    if p == 0 {
        lemma_subtree_self(0);
    } else {
        lemma_child_of_parent(p);
        lemma_in_root_subtree(parent_pos(p));
        lemma_subtree_child_of(0, parent_pos(p), p);
    }
}

/// Two vectors that agree on every position of the subtree of `x` hold the same tabs there.
pub proof fn lemma_subtree_tabs_same<Tab>(a: Seq<Node<Tab>>, b: Seq<Node<Tab>>, x: int)
    requires
        x >= 0,
        forall|q: int| in_subtree(x, q) ==> #[trigger] node_at(a, q) == node_at(b, q),
    ensures
        subtree_tabs(a, x) == subtree_tabs(b, x),
    decreases (if a.len() > b.len() { a.len() as int } else { b.len() as int }) - x,
{
    lemma_subtree_self(x);
    assert(node_at(a, x) == node_at(b, x));
    lemma_empty_tabs::<Tab>();
    if 0 <= x < a.len() && a[x].is_split_node() {
        assert(x < b.len());
        let c1 = 2 * x + 1;
        let c2 = 2 * x + 2;
        assert forall|q: int| in_subtree(c1, q) implies #[trigger] node_at(a, q) == node_at(b, q) by {
            lemma_child_subtree(x, c1, q);
        }
        assert forall|q: int| in_subtree(c2, q) implies #[trigger] node_at(a, q) == node_at(b, q) by {
            lemma_child_subtree(x, c2, q);
        }
        if c1 < a.len() || c1 < b.len() {
            lemma_subtree_tabs_same(a, b, c1);
        }
        if c2 < a.len() || c2 < b.len() {
            lemma_subtree_tabs_same(a, b, c2);
        }
    }
}

/// The tabs below a split node are those below its two children.
pub proof fn lemma_subtree_tabs_split<Tab>(nodes: Seq<Node<Tab>>, x: int)
    requires
        0 <= x < nodes.len(),
        nodes[x].is_split_node(),
    ensures
        subtree_tabs(nodes, x) == subtree_tabs(nodes, 2 * x + 1).add(subtree_tabs(nodes, 2 * x + 2)),
{
    reveal_with_fuel(subtree_tabs, 2);
}

/// A position of the subtree of `p` is at least `p`.
pub proof fn lemma_subtree_ge(p: int, q: int)
    requires
        p >= 0,
        in_subtree(p, q),
    ensures
        q >= p,
{
    if q != p {
        lemma_subtree_parent(p, q);
    }
}

/// When `a` and `b` agree outside the subtree of `p`, and every position above `p`
/// holds a split node in `a`, the tabs below a position `x` above `p` change exactly
/// as those below `p` do.
pub proof fn lemma_local_change<Tab>(a: Seq<Node<Tab>>, b: Seq<Node<Tab>>, x: int, p: int)
    requires
        0 <= x,
        in_subtree(x, p),
        forall|q: int| q >= 0 && !in_subtree(p, q) ==> #[trigger] node_at(a, q) == node_at(b, q),
        forall|y: int| 0 <= y && #[trigger] in_subtree(y, p) && y != p ==> node_at(a, y).is_split_node(),
    ensures
        subtree_tabs(a, x).add(subtree_tabs(b, p)) == subtree_tabs(b, x).add(subtree_tabs(a, p)),
    decreases p - x,
{
    broadcast use vstd::multiset::group_multiset_axioms;

    if x == p {
        assert(subtree_tabs(a, x).add(subtree_tabs(b, p)) =~= subtree_tabs(b, x).add(subtree_tabs(a, p)));
    } else {
        lemma_subtree_parent(x, p);
        if in_subtree(p, x) {
            lemma_subtree_ge(p, x);
        }
        assert(node_at(a, x) == node_at(b, x));
        assert(node_at(a, x).is_split_node());
        let c1 = 2 * x + 1;
        let c2 = 2 * x + 2;
        lemma_subtree_cases(x, p);
        let (c, o) = if in_subtree(c1, p) { (c1, c2) } else { (c2, c1) };
        assert forall|q: int| in_subtree(o, q) implies #[trigger] node_at(a, q) == node_at(b, q) by {
            if in_subtree(p, q) {
                lemma_subtree_ge(c, p);
                lemma_subtree_trans(c, p, q);
                lemma_children_disjoint(x, q);
            }
            lemma_subtree_ge(o, q);
        }
        lemma_subtree_tabs_same(a, b, o);
        lemma_subtree_ge(c, p);
        lemma_local_change(a, b, c, p);
        lemma_subtree_tabs_split(a, x);
        lemma_subtree_tabs_split(b, x);
        let ta = subtree_tabs(a, x).add(subtree_tabs(b, p));
        let tb = subtree_tabs(b, x).add(subtree_tabs(a, p));
        assert forall|v: Tab| ta.count(v) == tb.count(v) by {
            assert(subtree_tabs(a, c).add(subtree_tabs(b, p)).count(v) == subtree_tabs(b, c).add(
                subtree_tabs(a, p),
            ).count(v));
            assert(subtree_tabs(a, c).count(v) + subtree_tabs(b, p).count(v) == subtree_tabs(b, c).count(v)
                + subtree_tabs(a, p).count(v));
            assert(subtree_tabs(a, o).count(v) == subtree_tabs(b, o).count(v));
        }
        assert(ta =~= tb);
    }
}

/// Below a node that is not a split node there are only its own tabs.
pub proof fn lemma_non_split_tabs<Tab>(nodes: Seq<Node<Tab>>, q: int)
    requires
        q >= 0,
        !node_at(nodes, q).is_split_node(),
    ensures
        subtree_tabs(nodes, q) == node_at(nodes, q).tab_seq().to_multiset(),
{
    lemma_empty_tabs::<Tab>();
}

/// When the subtree of `s` is moved up to `p`, the tabs below each position of the
/// new subtree of `p` are those below the matching position of the old subtree of `s`.
pub proof fn lemma_moved_subtree_tabs<Tab>(
    before: Seq<Node<Tab>>,
    after: Seq<Node<Tab>>,
    p: int,
    s: int,
    d: nat,
    k: int,
)
    requires
        subtree_moved(before, after, p, s),
        p >= 0,
        s >= 0,
        0 <= k < level_width(d),
    ensures
        subtree_tabs(after, desc(p, d, k)) == subtree_tabs(before, desc(s, d, k)),
    decreases before.len() - desc(s, d, k),
{
    let x = desc(p, d, k);
    let y = desc(s, d, k);
    super::layout::lemma_desc_bounds(p, d, k);
    super::layout::lemma_desc_bounds(s, d, k);
    assert(node_at(after, x) == node_at(before, y));
    if node_at(before, y).is_split_node() {
        lemma_desc_children(p, d, k);
        lemma_desc_children(s, d, k);
        assert(level_width(d + 1) == 2 * level_width(d));
        lemma_subtree_tabs_split(after, x);
        lemma_subtree_tabs_split(before, y);
        if 2 * y + 1 < before.len() {
            lemma_moved_subtree_tabs(before, after, p, s, d + 1, 2 * k);
        } else {
            assert(node_at(after, desc(p, d + 1, 2 * k)) == node_at(before, desc(s, d + 1, 2 * k)));
            lemma_non_split_tabs(after, 2 * x + 1);
            lemma_non_split_tabs(before, 2 * y + 1);
        }
        if 2 * y + 2 < before.len() {
            lemma_moved_subtree_tabs(before, after, p, s, d + 1, 2 * k + 1);
        } else {
            assert(node_at(after, desc(p, d + 1, 2 * k + 1)) == node_at(before, desc(s, d + 1, 2 * k + 1)));
            lemma_non_split_tabs(after, 2 * x + 2);
            lemma_non_split_tabs(before, 2 * y + 2);
        }
    } else {
        lemma_non_split_tabs(after, x);
        lemma_non_split_tabs(before, y);
    }
}

/// Where every non-empty node other than the root has a split parent, every
/// position above a non-empty position holds a split node.
pub proof fn lemma_ancestor_split<Tab>(nodes: Seq<Node<Tab>>, y: int, p: int)
    requires
        parents_split(nodes),
        y >= 0,
        in_subtree(y, p),
        y != p,
        !(node_at(nodes, p) is Empty),
    ensures
        node_at(nodes, y).is_split_node(),
    decreases p - y,
{
    lemma_subtree_parent(y, p);
    lemma_child_of_parent(p);
    let q = parent_pos(p);
    assert(nodes[q].is_split_node());
    if q != y {
        lemma_subtree_parent(y, q);
        lemma_ancestor_split(nodes, y, q);
    }
}

/// A well-formed layout has split parents.
pub proof fn lemma_wf_parents_split<Tab>(nodes: Seq<Node<Tab>>)
    requires
        layout_wf(nodes),
    ensures
        parents_split(nodes),
{
    assert forall|i: int| 0 < i < nodes.len() && !(#[trigger] nodes[i] is Empty) implies nodes[parent_pos(
        i,
    )].is_split_node() by {
        super::layout::lemma_layout_wf_parent(nodes, i);
    }
}

/// When `a` and `b` agree outside the subtree of a non-empty position `p` of `a`,
/// which has split parents, the tabs of the whole tree change as those below `p` do.
pub proof fn lemma_tree_change<Tab>(a: Seq<Node<Tab>>, b: Seq<Node<Tab>>, p: int)
    requires
        parents_split(a),
        p >= 0,
        !(node_at(a, p) is Empty),
        forall|q: int| q >= 0 && !in_subtree(p, q) ==> #[trigger] node_at(a, q) == node_at(b, q),
    ensures
        tree_tabs(a).add(subtree_tabs(b, p)) == tree_tabs(b).add(subtree_tabs(a, p)),
{
    lemma_in_root_subtree(p);
    assert forall|y: int| 0 <= y && #[trigger] in_subtree(y, p) && y != p implies node_at(a, y).is_split_node() by {
        lemma_ancestor_split(a, y, p);
    }
    lemma_local_change(a, b, 0, p);
}

/// Removing a leaf takes its tabs, and only those, out of the tree.
#[verifier::spinoff_prover]
#[verifier::rlimit(40)]
pub proof fn lemma_removed_leaf_tree_tabs<Tab>(
    before: Seq<Node<Tab>>,
    focus_before: Option<super::NodeIndex>,
    n: int,
    after: Seq<Node<Tab>>,
    focus_after: Option<super::NodeIndex>,
)
    requires
        layout_wf(before),
        0 <= n < before.len(),
        before[n] is Leaf,
        removed_leaf(before, focus_before, n, after, focus_after),
    ensures
        tree_tabs(after).add(before[n].tab_seq().to_multiset()) == tree_tabs(before),
{
    lemma_empty_tabs::<Tab>();
    let t = before[n].tab_seq().to_multiset();
    if n == 0 {
        lemma_non_split_tabs(before, 0);
        assert(tree_tabs(after).add(t) =~= tree_tabs(before)) by {
            broadcast use vstd::multiset::group_multiset_axioms;
        }
    } else {
        let p = parent_pos(n);
        let s = sibling_pos(n);
        lemma_wf_parents_split(before);
        assert(before[p].is_split_node());
        super::layout::lemma_desc_root(p);
        super::layout::lemma_desc_root(s);
        assert(level_width(0) == 1);
        lemma_moved_subtree_tabs(before, after, p, s, 0, 0);
        lemma_subtree_tabs_split(before, p);
        lemma_non_split_tabs(before, n);
        assert forall|q: int| q >= 0 && !in_subtree(p, q) implies #[trigger] node_at(before, q) == node_at(after, q) by {}
        lemma_tree_change(before, after, p);
        assert(subtree_tabs(after, p) == subtree_tabs(before, s));
        let sp = subtree_tabs(before, p);
        let ss = subtree_tabs(before, s);
        assert(sp == subtree_tabs(before, 2 * p + 1).add(subtree_tabs(before, 2 * p + 2)));
        assert(subtree_tabs(before, n) == t);
        assert(forall|v: Tab| #[trigger] sp.count(v) == ss.count(v) + t.count(v)) by {
            broadcast use vstd::multiset::group_multiset_axioms;
        }
        let ta = tree_tabs(after);
        let tb = tree_tabs(before);
        assert(tb.add(ss) == ta.add(sp));
        assert(ta.add(t) =~= tb) by {
            broadcast use vstd::multiset::group_multiset_axioms;
            assert forall|v: Tab| ta.add(t).count(v) == tb.count(v) by {
                assert(tb.add(ss).count(v) == ta.add(sp).count(v));
                assert(sp.count(v) == ss.count(v) + t.count(v));
            }
        }
    }
}

/// Splitting a leaf adds the tabs of the new leaf to the tabs of the tree.
pub proof fn lemma_split_tabs<Tab>(
    before: Seq<Node<Tab>>,
    after: Seq<Node<Tab>>,
    parent: int,
    split: Split,
    fraction: u32,
)
    requires
        layout_wf(before),
        0 <= parent < before.len(),
        before[parent] is Leaf,
        split_shape(before, after, parent, split, fraction),
        node_at(after, split_new_pos(parent, split)) is Leaf,
    ensures
        tree_tabs(after) == tree_tabs(before).add(
            node_at(after, split_new_pos(parent, split)).tab_seq().to_multiset(),
        ),
{
    broadcast use vstd::multiset::group_multiset_axioms;

    let old_pos = split_old_pos(parent, split);
    let new_pos = split_new_pos(parent, split);
    let t = node_at(after, new_pos).tab_seq().to_multiset();
    lemma_wf_parents_split(before);
    lemma_subtree_self(parent);
    lemma_subtree_self(0);
    super::layout::lemma_desc_root(parent);
    lemma_subtree_child_of(parent, parent, 2 * parent + 1);
    lemma_subtree_child_of(parent, parent, 2 * parent + 2);
    assert forall|q: int| q >= 0 && !in_subtree(parent, q) implies #[trigger] node_at(before, q) == node_at(after, q) by {}
    lemma_tree_change(before, after, parent);
    lemma_subtree_tabs_split(after, parent);
    lemma_non_split_tabs(after, old_pos);
    lemma_non_split_tabs(after, new_pos);
    lemma_non_split_tabs(before, parent);
    assert(subtree_tabs(after, parent) =~= subtree_tabs(before, parent).add(t));
    assert(tree_tabs(after) =~= tree_tabs(before).add(t)) by {
        assert forall|v: Tab| tree_tabs(after).count(v) == tree_tabs(before).add(t).count(v) by {
            assert(tree_tabs(before).add(subtree_tabs(after, parent)).count(v) == tree_tabs(after).add(
                subtree_tabs(before, parent),
            ).count(v));
        }
    }
}

/// Changing the tabs of one leaf, which stays a leaf, changes the tabs of the tree
/// accordingly.
pub proof fn lemma_leaf_edit_tabs<Tab>(before: Seq<Node<Tab>>, after: Seq<Node<Tab>>, n: int)
    requires
        layout_wf(before),
        0 <= n < before.len(),
        before[n] is Leaf,
        after.len() == before.len(),
        after[n] is Leaf,
        forall|q: int| 0 <= q < before.len() && q != n ==> #[trigger] after[q] == before[q],
    ensures
        tree_tabs(after).add(before[n].tab_seq().to_multiset()) == tree_tabs(before).add(
            after[n].tab_seq().to_multiset(),
        ),
{
    broadcast use vstd::multiset::group_multiset_axioms;

    lemma_wf_parents_split(before);
    lemma_subtree_self(n);
    assert forall|q: int| q >= 0 && !in_subtree(n, q) implies #[trigger] node_at(before, q) == node_at(after, q) by {}
    lemma_tree_change(before, after, n);
    lemma_non_split_tabs(before, n);
    lemma_non_split_tabs(after, n);
    assert(tree_tabs(after).add(before[n].tab_seq().to_multiset()) =~= tree_tabs(before).add(
        after[n].tab_seq().to_multiset(),
    ));
}

/// The tabs of a node vector whose non-empty nodes have split parents, in position
/// order, are the tabs of its tree.
pub proof fn lemma_all_tabs_are_tree_tabs<Tab>(nodes: Seq<Node<Tab>>)
    requires
        parents_split(nodes),
    ensures
        all_tabs(nodes).to_multiset() == tree_tabs(nodes),
    decreases nodes.len(),
{
    broadcast use vstd::multiset::group_multiset_axioms;

    lemma_empty_tabs::<Tab>();
    if nodes.len() == 0 {
        assert(all_tabs(nodes) =~= Seq::<Tab>::empty());
    } else {
        let m = nodes.len() - 1;
        let shorter = nodes.drop_last();
        let cleared = nodes.update(m, Node::Empty);
        assert(parents_split(shorter));
        lemma_all_tabs_are_tree_tabs(shorter);
        lemma_tabs_upto_prefix(nodes, shorter, m);
        assert(all_tabs(nodes) == all_tabs(shorter) + nodes[m].tab_seq());
        vstd::seq_lib::lemma_multiset_commutative(all_tabs(shorter), nodes[m].tab_seq());
        assert forall|q: int| in_subtree(0, q) implies #[trigger] node_at(cleared, q) == node_at(shorter, q) by {}
        lemma_subtree_tabs_same(cleared, shorter, 0);
        if nodes[m] is Empty {
            assert(cleared =~= nodes);
        } else {
            lemma_subtree_self(m);
            assert forall|q: int| q >= 0 && !in_subtree(m, q) implies #[trigger] node_at(nodes, q) == node_at(cleared, q) by {}
            lemma_tree_change(nodes, cleared, m);
            lemma_non_split_tabs(cleared, m);
            if nodes[m].is_split_node() {
                lemma_subtree_tabs_split(nodes, m);
                assert(nodes[m].tab_seq() =~= Seq::<Tab>::empty());
            } else {
                lemma_non_split_tabs(nodes, m);
            }
            assert(subtree_tabs(nodes, m) == nodes[m].tab_seq().to_multiset());
            assert forall|v: Tab| tree_tabs(nodes).count(v) == tree_tabs(shorter).add(
                nodes[m].tab_seq().to_multiset(),
            ).count(v) by {
                assert(tree_tabs(nodes).add(subtree_tabs(cleared, m)).count(v) == tree_tabs(cleared).add(
                    subtree_tabs(nodes, m),
                ).count(v));
            }
        }
        assert(all_tabs(nodes).to_multiset() =~= tree_tabs(nodes));
    }
}

/// `tabs_upto` reads only the positions below `n`.
pub proof fn lemma_tabs_upto_prefix<Tab>(a: Seq<Node<Tab>>, b: Seq<Node<Tab>>, n: int)
    requires
        0 <= n <= a.len(),
        n <= b.len(),
        forall|q: int| 0 <= q < n ==> #[trigger] a[q] == b[q],
    ensures
        tabs_upto(a, n) == tabs_upto(b, n),
    decreases n,
{
    if n > 0 {
        lemma_tabs_upto_prefix(a, b, n - 1);
    }
}

/// In a well-formed layout, the tabs in position order are the tabs of the tree.
pub proof fn lemma_tab_bag<Tab>(nodes: Seq<Node<Tab>>)
    requires
        layout_wf(nodes),
    ensures
        tab_bag(nodes) == tree_tabs(nodes),
{
    lemma_wf_parents_split(nodes);
    lemma_all_tabs_are_tree_tabs(nodes);
}

/// Taking the tab at index `t` out of the leaf at `n` takes it out of the tree.
pub proof fn lemma_tab_removed_bag<Tab>(before: Seq<Node<Tab>>, after: Seq<Node<Tab>>, n: int, t: int)
    requires
        layout_wf(before),
        tab_removed(before, after, n, t),
    ensures
        layout_wf(after),
        tab_bag(after) == tab_bag(before).remove(before[n].tab_seq()[t]),
        tab_bag(before).count(before[n].tab_seq()[t]) > 0,
{
    broadcast use vstd::multiset::group_multiset_axioms;
    broadcast use vstd::seq_lib::group_to_multiset_ensures;

    super::layout::lemma_leaf_changed_wf(before, after, n);
    lemma_tab_bag(before);
    lemma_tab_bag(after);
    lemma_leaf_edit_tabs(before, after, n);
    let x = before[n].tab_seq()[t];
    assert(after[n].tab_seq() == before[n].tab_seq().remove(t));
    assert(before[n].tab_seq().to_multiset().count(x) > 0);
    assert(tab_bag(before).count(x) > 0) by {
        assert(tree_tabs(after).add(before[n].tab_seq().to_multiset()).count(x) == tree_tabs(before).add(
            after[n].tab_seq().to_multiset(),
        ).count(x));
        assert(after[n].tab_seq().to_multiset().count(x) + 1 == before[n].tab_seq().to_multiset().count(x));
    }
    assert(tab_bag(after) =~= tab_bag(before).remove(x)) by {
        assert forall|v: Tab| tab_bag(after).count(v) == tab_bag(before).remove(x).count(v) by {
            assert(tree_tabs(after).add(before[n].tab_seq().to_multiset()).count(v) == tree_tabs(before).add(
                after[n].tab_seq().to_multiset(),
            ).count(v));
        }
    }
}

/// Inserting `tab` into a leaf puts it into the tree.
pub proof fn lemma_tab_inserted_bag<Tab>(before: Seq<Node<Tab>>, after: Seq<Node<Tab>>, n: int, i: int, tab: Tab)
    requires
        layout_wf(before),
        tab_inserted(before, after, n, i, tab),
    ensures
        layout_wf(after),
        tab_bag(after) == tab_bag(before).insert(tab),
{
    broadcast use vstd::multiset::group_multiset_axioms;
    broadcast use vstd::seq_lib::group_to_multiset_ensures;

    super::layout::lemma_leaf_changed_wf(before, after, n);
    lemma_tab_bag(before);
    lemma_tab_bag(after);
    lemma_leaf_edit_tabs(before, after, n);
    assert(after[n].tab_seq() == before[n].tab_seq().insert(i, tab));
    assert(tab_bag(after) =~= tab_bag(before).insert(tab)) by {
        assert forall|v: Tab| tab_bag(after).count(v) == tab_bag(before).insert(tab).count(v) by {
            assert(tree_tabs(after).add(before[n].tab_seq().to_multiset()).count(v) == tree_tabs(before).add(
                after[n].tab_seq().to_multiset(),
            ).count(v));
        }
    }
}

/// Appending `tab` to a leaf puts it into the tree.
pub proof fn lemma_tab_appended_bag<Tab>(before: Seq<Node<Tab>>, after: Seq<Node<Tab>>, n: int, tab: Tab)
    requires
        layout_wf(before),
        tab_appended(before, after, n, tab),
    ensures
        layout_wf(after),
        tab_bag(after) == tab_bag(before).insert(tab),
{
    broadcast use vstd::multiset::group_multiset_axioms;
    broadcast use vstd::seq_lib::group_to_multiset_ensures;

    super::layout::lemma_leaf_changed_wf(before, after, n);
    lemma_tab_bag(before);
    lemma_tab_bag(after);
    lemma_leaf_edit_tabs(before, after, n);
    assert(after[n].tab_seq() == before[n].tab_seq().push(tab));
    assert(tab_bag(after) =~= tab_bag(before).insert(tab)) by {
        assert forall|v: Tab| tab_bag(after).count(v) == tab_bag(before).insert(tab).count(v) by {
            assert(tree_tabs(after).add(before[n].tab_seq().to_multiset()).count(v) == tree_tabs(before).add(
                after[n].tab_seq().to_multiset(),
            ).count(v));
        }
    }
}

/// Removing a leaf takes its tabs out of the tree.
pub proof fn lemma_removed_leaf_bag<Tab>(
    before: Seq<Node<Tab>>,
    focus_before: Option<super::NodeIndex>,
    n: int,
    after: Seq<Node<Tab>>,
    focus_after: Option<super::NodeIndex>,
)
    requires
        layout_wf(before),
        layout_wf(after),
        0 <= n < before.len(),
        before[n] is Leaf,
        removed_leaf(before, focus_before, n, after, focus_after),
    ensures
        tab_bag(after).add(before[n].tab_seq().to_multiset()) == tab_bag(before),
{
    lemma_removed_leaf_tree_tabs(before, focus_before, n, after, focus_after);
    lemma_tab_bag(before);
    lemma_tab_bag(after);
}

/// Splitting a leaf puts the tabs of the new leaf into the tree.
pub proof fn lemma_split_bag<Tab>(
    before: Seq<Node<Tab>>,
    after: Seq<Node<Tab>>,
    parent: int,
    split: Split,
    fraction: u32,
)
    requires
        layout_wf(before),
        layout_wf(after),
        0 <= parent < before.len(),
        before[parent] is Leaf,
        split_shape(before, after, parent, split, fraction),
        node_at(after, split_new_pos(parent, split)) is Leaf,
    ensures
        tab_bag(after) == tab_bag(before).add(node_at(after, split_new_pos(parent, split)).tab_seq().to_multiset()),
{
    lemma_split_tabs(before, after, parent, split, fraction);
    lemma_tab_bag(before);
    lemma_tab_bag(after);
}

/// A tree made of a single leaf holds the tabs of that leaf.
pub proof fn lemma_single_leaf_bag<Tab>(nodes: Seq<Node<Tab>>, tab: Tab)
    requires
        single_leaf(nodes, tab),
    ensures
        layout_wf(nodes),
        tab_bag(nodes) == Multiset::<Tab>::empty().insert(tab),
{
    broadcast use vstd::seq_lib::group_to_multiset_ensures;

    assert forall|i: int| 0 < i < nodes.len() && !(#[trigger] nodes[i] is Empty) implies nodes[parent_pos(
        i,
    )].is_split_node() by {}
    super::layout::lemma_layout_wf_intro(nodes);
    reveal_with_fuel(tabs_upto, 2);
    assert(all_tabs(nodes) =~= seq![tab]);
    lemma_empty_tabs::<Tab>();
    assert(seq![tab] =~= Seq::<Tab>::empty().push(tab));
}

/// Pushing `tab` to the first leaf puts it into the tree.
pub proof fn lemma_pushed_to_first_leaf_bag<Tab>(
    before: Seq<Node<Tab>>,
    after: Seq<Node<Tab>>,
    focus: Option<NodeIndex>,
    tab: Tab,
)
    requires
        layout_wf(before),
        layout_wf(after),
        pushed_to_first_leaf(before, after, focus, tab),
    ensures
        tab_bag(after) == tab_bag(before).insert(tab),
{
    broadcast use vstd::multiset::group_multiset_axioms;
    broadcast use vstd::seq_lib::group_to_multiset_ensures;

    let i = super::layout::first_non_split(before, 0);
    super::layout::lemma_first_non_split_is_non_split(before, 0);
    lemma_tab_bag(before);
    lemma_tab_bag(after);
    lemma_empty_tabs::<Tab>();
    if i < before.len() {
        if before[i] is Empty {
            lemma_non_split_tabs(before, 0);
            lemma_non_split_tabs(after, 0);
            assert(after[0].tab_seq() =~= Seq::<Tab>::empty().push(tab));
            assert(tab_bag(after) =~= tab_bag(before).insert(tab));
        } else {
            super::layout::lemma_first_non_split_kind_leaf(before, i);
            lemma_tab_appended_bag(before, after, i, tab);
        }
    } else {
        lemma_single_leaf_bag(after, tab);
        assert(all_tabs(before) =~= Seq::<Tab>::empty());
        assert(tab_bag(after) =~= tab_bag(before).insert(tab));
    }
}

/// Pushing `tab` to the focused leaf puts it into the tree.
pub proof fn lemma_pushed_to_focused_leaf_bag<Tab>(
    before: Seq<Node<Tab>>,
    focus_before: Option<NodeIndex>,
    after: Seq<Node<Tab>>,
    focus_after: Option<NodeIndex>,
    tab: Tab,
)
    requires
        layout_wf(before),
        layout_wf(after),
        pushed_to_focused_leaf(before, focus_before, after, focus_after, tab),
    ensures
        tab_bag(after) == tab_bag(before).insert(tab),
{
    broadcast use vstd::multiset::group_multiset_axioms;

    if before.len() == 0 {
        lemma_single_leaf_bag(after, tab);
        lemma_empty_tabs::<Tab>();
        assert(all_tabs(before) =~= Seq::<Tab>::empty());
        assert(tab_bag(after) =~= tab_bag(before).insert(tab));
    } else {
        match focus_before {
            Some(f) => lemma_tab_appended_bag(before, after, f.0 as int, tab),
            None => lemma_pushed_to_first_leaf_bag(before, after, focus_after, tab),
        }
    }
}

/// Removing a tab takes it, and only it, out of the tree.
pub proof fn lemma_removed_tab_bag<Tab>(
    before: Seq<Node<Tab>>,
    focus_before: Option<NodeIndex>,
    n: int,
    t: int,
    after: Seq<Node<Tab>>,
    focus_after: Option<NodeIndex>,
)
    requires
        layout_wf(before),
        layout_wf(after),
        0 <= n < before.len(),
        before[n] is Leaf,
        0 <= t < before[n].tab_seq().len(),
        removed_tab(before, focus_before, n, t, after, focus_after),
    ensures
        tab_bag(after) == tab_bag(before).remove(before[n].tab_seq()[t]),
{
    broadcast use vstd::multiset::group_multiset_axioms;
    broadcast use vstd::seq_lib::group_to_multiset_ensures;

    let rest = before[n].tab_seq().remove(t);
    let x = before[n].tab_seq()[t];
    if rest.len() > 0 {
        assert(tab_removed(before, after, n, t));
        lemma_tab_removed_bag(before, after, n, t);
    } else {
        lemma_removed_leaf_bag(before, focus_before, n, after, focus_after);
        assert(before[n].tab_seq().len() == 1);
        assert(before[n].tab_seq() =~= Seq::<Tab>::empty().push(x));
        lemma_empty_tabs::<Tab>();
        assert(tab_bag(after) =~= tab_bag(before).remove(x));
    }
}

/// A tab of a leaf of a well-formed tree is among the tabs of the tree.
pub proof fn lemma_tab_bag_has<Tab>(nodes: Seq<Node<Tab>>, n: int, t: int)
    requires
        layout_wf(nodes),
        0 <= n < nodes.len(),
        nodes[n] is Leaf,
        0 <= t < nodes[n].tab_seq().len(),
    ensures
        tab_bag(nodes).count(nodes[n].tab_seq()[t]) > 0,
{
    lemma_wf_parents_split(nodes);
    lemma_all_tabs_are_tree_tabs(nodes);
    lemma_subtree_self(n);
    lemma_in_root_subtree(n);
    lemma_tab_in_subtree(nodes, 0, n, t);
}

/// The tabs of a leaf at `n` lie below every position above it, when the positions
/// between hold split nodes.
pub proof fn lemma_tab_in_subtree<Tab>(nodes: Seq<Node<Tab>>, x: int, n: int, t: int)
    requires
        parents_split(nodes),
        0 <= x,
        in_subtree(x, n),
        0 <= n < nodes.len(),
        nodes[n] is Leaf,
        0 <= t < nodes[n].tab_seq().len(),
    ensures
        subtree_tabs(nodes, x).count(nodes[n].tab_seq()[t]) > 0,
    decreases n - x,
{
    broadcast use vstd::multiset::group_multiset_axioms;
    broadcast use vstd::seq_lib::group_to_multiset_ensures;

    let v = nodes[n].tab_seq()[t];
    if x == n {
        lemma_non_split_tabs(nodes, n);
        assert(nodes[n].tab_seq().contains(v));
    } else {
        lemma_subtree_parent(x, n);
        lemma_ancestor_split(nodes, x, n);
        lemma_subtree_cases(x, n);
        lemma_subtree_tabs_split(nodes, x);
        if in_subtree(2 * x + 1, n) {
            lemma_subtree_ge(2 * x + 1, n);
            lemma_tab_in_subtree(nodes, 2 * x + 1, n, t);
        } else {
            lemma_subtree_ge(2 * x + 2, n);
            lemma_tab_in_subtree(nodes, 2 * x + 2, n, t);
        }
    }
}

/// Vectors whose nodes hold the same tabs, position by position, hold the same tabs
/// in position order.
pub proof fn lemma_same_tab_seqs<Tab>(a: Seq<Node<Tab>>, b: Seq<Node<Tab>>, n: int)
    requires
        0 <= n <= a.len(),
        a.len() == b.len(),
        forall|q: int| 0 <= q < a.len() ==> #[trigger] a[q].tab_seq() == b[q].tab_seq(),
    ensures
        tabs_upto(a, n) == tabs_upto(b, n),
    decreases n,
{
    if n > 0 {
        lemma_same_tab_seqs(a, b, n - 1);
        assert(a[n - 1].tab_seq() == b[n - 1].tab_seq());
    }
}

} // verus!
