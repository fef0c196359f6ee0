use vstd::prelude::*;
use vstd::relations::injective_on;
use vstd::set_lib::{lemma_int_range, lemma_len_subset, lemma_map_size, set_int_range};

use super::layout::{
    desc, in_subtree, layout_wf, lemma_child_subtree, lemma_desc_bounds, lemma_desc_injective, lemma_layout_wf_parent,
    lemma_subtree_moved_wf, lemma_subtree_self, level_width, node_at, parent_pos, sibling_pos,
};
use super::{empties_cleared, first_empty_leaf, removed_leaf, Node, NodeIndex};

verus! {

/// The positions of `nodes` that hold a node.
pub open spec fn filled<Tab>(nodes: Seq<Node<Tab>>) -> Set<int> {
    Set::new(|i: int| 0 <= i < nodes.len() && !(nodes[i] is Empty))
}

/// There are no more filled positions than positions.
pub proof fn lemma_filled_bound<Tab>(nodes: Seq<Node<Tab>>)
    ensures
        filled(nodes).finite(),
        filled(nodes).len() <= nodes.len(),
{
    lemma_int_range(0, nodes.len() as int);
    lemma_len_subset(filled(nodes), set_int_range(0, nodes.len() as int));
}

/// Where the node at position `q` was before the subtree of `s` moved up to its
/// parent position `p`.
spec fn source_pos(p: int, s: int, q: int) -> int {
    if in_subtree(p, q) {
        let (d, k) = choose|d: nat, k: int| 0 <= k < level_width(d) && q == desc(p, d, k);
        desc(s, d, k)
    } else {
        q
    }
}

/// Removing a leaf takes at least one node out of the tree.
pub proof fn lemma_removed_leaf_shrinks<Tab>(
    before: Seq<Node<Tab>>,
    fb: Option<NodeIndex>,
    e: int,
    after: Seq<Node<Tab>>,
    fa: Option<NodeIndex>,
)
    requires
        layout_wf(before),
        0 <= e < before.len(),
        before[e] is Leaf,
        removed_leaf(before, fb, e, after, fa),
    ensures
        filled(after).len() < filled(before).len(),
        layout_wf(after),
{
    lemma_filled_bound(before);
    lemma_filled_bound(after);
    assert(filled(before).contains(e));
    assert(filled(before).remove(e).len() == filled(before).len() - 1);
    if e == 0 {
        assert(filled(after) =~= Set::<int>::empty());
        assert(layout_wf(after)) by {
            reveal(layout_wf);
        }
        return;
    }
    let p = parent_pos(e);
    let s = sibling_pos(e);
    assert(s == 2 * p + 1 || s == 2 * p + 2);
    lemma_layout_wf_parent(before, e);
    lemma_subtree_moved_wf(before, after, p, s);
    let fa_set = filled(after);
    let fb_set = filled(before).remove(p);
    let f = |q: int| source_pos(p, s, q);
    assert forall|q: int| fa_set.contains(q) implies fb_set.contains(#[trigger] f(q)) by {
        if in_subtree(p, q) {
            let (d, k) = choose|d: nat, k: int| 0 <= k < level_width(d) && q == desc(p, d, k);
            assert(node_at(after, desc(p, d, k)) == node_at(before, desc(s, d, k)));
            lemma_desc_bounds(s, d, k);
        } else {
            lemma_subtree_self(p);
        }
    }
    assert forall|q1: int, q2: int|
        fa_set.contains(q1) && fa_set.contains(q2) && #[trigger] f(q1) == #[trigger] f(q2) implies q1 == q2 by {
        if in_subtree(p, q1) && in_subtree(p, q2) {
            let (d1, k1) = choose|d: nat, k: int| 0 <= k < level_width(d) && q1 == desc(p, d, k);
            let (d2, k2) = choose|d: nat, k: int| 0 <= k < level_width(d) && q2 == desc(p, d, k);
            lemma_desc_injective(s, d1, k1, d2, k2);
        } else if in_subtree(p, q1) {
            let (d1, k1) = choose|d: nat, k: int| 0 <= k < level_width(d) && q1 == desc(p, d, k);
            assert(in_subtree(s, q2));
            lemma_child_subtree(p, s, q2);
        } else if in_subtree(p, q2) {
            let (d2, k2) = choose|d: nat, k: int| 0 <= k < level_width(d) && q2 == desc(p, d, k);
            assert(in_subtree(s, q1));
            lemma_child_subtree(p, s, q1);
        }
    }
    assert(injective_on(f, fa_set));
    let img = fa_set.map(f);
    lemma_map_size(fa_set, img, f);
    assert(img.subset_of(fb_set));
    lemma_len_subset(img, fb_set);
}

/// Removing the first leaf without tabs again and again, as many times as there are
/// positions, leaves no leaf without tabs.
pub proof fn lemma_empties_cleared_leaves_none<Tab>(
    before: Seq<Node<Tab>>,
    fb: Option<NodeIndex>,
    after: Seq<Node<Tab>>,
    fa: Option<NodeIndex>,
    fuel: nat,
)
    requires
        layout_wf(before),
        fuel >= before.len(),
        empties_cleared(before, fb, after, fa, fuel),
    ensures
        first_empty_leaf(after, 0) == after.len(),
{
    lemma_filled_bound(before);
    lemma_cleared_by_count(before, fb, after, fa, fuel);
}

/// As long as `fuel` is at least the number of nodes, clearing leaves no leaf
/// without tabs.
proof fn lemma_cleared_by_count<Tab>(
    before: Seq<Node<Tab>>,
    fb: Option<NodeIndex>,
    after: Seq<Node<Tab>>,
    fa: Option<NodeIndex>,
    fuel: nat,
)
    requires
        layout_wf(before),
        filled(before).len() <= fuel,
        empties_cleared(before, fb, after, fa, fuel),
    ensures
        first_empty_leaf(after, 0) == after.len(),
    decreases fuel,
{
    lemma_filled_bound(before);
    if first_empty_leaf(before, 0) == before.len() {
    } else if fuel == 0 {
        super::lemma_first_empty_leaf_bound(before, 0);
        let e = first_empty_leaf(before, 0);
        lemma_first_empty_leaf_found(before, 0);
        assert(filled(before).contains(e));
        assert(filled(before).remove(e).len() == filled(before).len() - 1);
    } else {
        let e = first_empty_leaf(before, 0);
        super::lemma_first_empty_leaf_bound(before, 0);
        lemma_first_empty_leaf_found(before, 0);
        let (mid, fm) = choose|mid: Seq<Node<Tab>>, fm: Option<NodeIndex>|
            #[trigger] removed_leaf(before, fb, e, mid, fm) && empties_cleared(mid, fm, after, fa, (fuel - 1) as nat);
        lemma_removed_leaf_shrinks(before, fb, e, mid, fm);
        lemma_cleared_by_count(mid, fm, after, fa, (fuel - 1) as nat);
    }
}

/// A first empty leaf that is found is a leaf without tabs.
proof fn lemma_first_empty_leaf_found<Tab>(nodes: Seq<Node<Tab>>, i: int)
    requires
        0 <= i,
        first_empty_leaf(nodes, i) < nodes.len(),
    ensures
        nodes[first_empty_leaf(nodes, i)] is Leaf,
        nodes[first_empty_leaf(nodes, i)].tab_seq().len() == 0,
    decreases nodes.len() - i,
{
    if i < nodes.len() && !(nodes[i] is Leaf && nodes[i].tab_seq().len() == 0) {
        lemma_first_empty_leaf_found(nodes, i + 1);
    }
}

/// When no first empty leaf is found, every leaf holds a tab.
pub proof fn lemma_no_empty_leaf<Tab>(nodes: Seq<Node<Tab>>)
    requires
        first_empty_leaf(nodes, 0) == nodes.len(),
    ensures
        forall|i: int| 0 <= i < nodes.len() && #[trigger] nodes[i] is Leaf ==> nodes[i].tab_seq().len() > 0,
{
    assert forall|i: int| 0 <= i < nodes.len() && #[trigger] nodes[i] is Leaf implies nodes[i].tab_seq().len() > 0 by {
        lemma_first_empty_leaf_before(nodes, 0, i);
    }
}

/// A leaf without tabs at `j` stops the search from any `i <= j` at or before `j`.
proof fn lemma_first_empty_leaf_before<Tab>(nodes: Seq<Node<Tab>>, i: int, j: int)
    requires
        0 <= i <= j < nodes.len(),
    ensures
        nodes[j] is Leaf && nodes[j].tab_seq().len() == 0 ==> first_empty_leaf(nodes, i) <= j,
    decreases j - i,
{
    if i < j && !(nodes[i] is Leaf && nodes[i].tab_seq().len() == 0) {
        lemma_first_empty_leaf_before(nodes, i + 1, j);
    }
}

} // verus!
