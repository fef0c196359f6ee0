//! The heap layout of a [`Tree`](crate::Tree): positions, subtrees, and the
//! well-formedness of a node vector.
//!
//! The root is at position `0`; the children of position `n` are at `2n + 1`
//! (left/above) and `2n + 2` (right/below). Position `desc(x, d, k)` is the
//! `k`-th position at depth `d` below `x`, counted from the left.

use vstd::prelude::*;

use super::node::Node;

verus! {

/// Number of positions at depth `d` below a node: `2^d`.
pub open spec fn level_width(d: nat) -> nat
    decreases d,
{
    if d == 0 {
        1
    } else {
        2 * level_width((d - 1) as nat)
    }
}

/// The `k`-th position (from the left) at depth `d` below position `x`.
pub open spec fn desc(x: int, d: nat, k: int) -> int {
    (x + 1) * (level_width(d) as int) - 1 + k
}

/// Whether position `q` lies in the subtree rooted at position `x`.
pub open spec fn in_subtree(x: int, q: int) -> bool {
    exists|d: nat, k: int| 0 <= k < level_width(d) && q == #[trigger] desc(x, d, k)
}

/// Position of the parent of `i` (for `i > 0`).
pub open spec fn parent_pos(i: int) -> int {
    (i - 1) / 2
}

/// Position of the other child of the parent of `i` (for `i > 0`).
pub open spec fn sibling_pos(i: int) -> int {
    if i % 2 != 0 {
        i + 1
    } else {
        i - 1
    }
}

/// The node at position `i`, where positions outside the vector hold an empty node.
pub open spec fn node_at<Tab>(nodes: Seq<Node<Tab>>, i: int) -> Node<Tab> {
    if 0 <= i < nodes.len() {
        nodes[i]
    } else {
        Node::Empty
    }
}

/// The node vector forms a binary tree in heap layout: every split node has two
/// non-empty children and every non-empty node other than the root has a split
/// node as parent.
#[verifier::opaque]
pub open spec fn layout_wf<Tab>(nodes: Seq<Node<Tab>>) -> bool {
    &&& forall|i: int|
        0 <= i < nodes.len() && (#[trigger] nodes[i]).is_split_node() ==> {
            &&& !(node_at(nodes, 2 * i + 1) is Empty)
            &&& !(node_at(nodes, 2 * i + 2) is Empty)
        }
    &&& forall|i: int|
        0 < i < nodes.len() && !(#[trigger] nodes[i] is Empty) ==> nodes[parent_pos(
            i,
        )].is_split_node()
}

/// In a well-formed layout, both children of a split node are present.
pub proof fn lemma_layout_wf_children<Tab>(nodes: Seq<Node<Tab>>, i: int)
    requires
        layout_wf(nodes),
        0 <= i < nodes.len(),
        nodes[i].is_split_node(),
    ensures
        !(node_at(nodes, 2 * i + 1) is Empty),
        !(node_at(nodes, 2 * i + 2) is Empty),
        2 * i + 2 < nodes.len(),
{
    reveal(layout_wf);
}

/// In a well-formed layout, the parent of a non-empty node is a split node.
pub proof fn lemma_layout_wf_parent<Tab>(nodes: Seq<Node<Tab>>, i: int)
    requires
        layout_wf(nodes),
        0 < i < nodes.len(),
        !(nodes[i] is Empty),
    ensures
        nodes[parent_pos(i)].is_split_node(),
{
    reveal(layout_wf);
}

/// The two conditions of a well-formed layout establish it.
pub proof fn lemma_layout_wf_intro<Tab>(nodes: Seq<Node<Tab>>)
    requires
        forall|i: int|
            0 <= i < nodes.len() && (#[trigger] nodes[i]).is_split_node() ==> {
                &&& !(node_at(nodes, 2 * i + 1) is Empty)
                &&& !(node_at(nodes, 2 * i + 2) is Empty)
            },
        forall|i: int|
            0 < i < nodes.len() && !(#[trigger] nodes[i] is Empty) ==> nodes[parent_pos(
                i,
            )].is_split_node(),
    ensures
        layout_wf(nodes),
{
    reveal(layout_wf);
}

/// `after` is `before` with the subtree rooted at position `s` moved up so that
/// it is rooted at position `p`: every position of the subtree of `p` holds what
/// the matching position of the subtree of `s` held (an empty node where that
/// lies outside the vector), and every other position keeps its node.
pub open spec fn subtree_moved<Tab>(
    before: Seq<Node<Tab>>,
    after: Seq<Node<Tab>>,
    p: int,
    s: int,
) -> bool {
    &&& after.len() == before.len()
    &&& forall|d: nat, k: int|
        0 <= k < level_width(d) ==> #[trigger] node_at(after, desc(p, d, k)) == node_at(
            before,
            desc(s, d, k),
        )
    &&& forall|q: int| 0 <= q < before.len() && !in_subtree(p, q) ==> after[q] == #[trigger] before[q]
}

/// Where position `x` ends up when the subtree of `s` is moved up to `p`.
pub open spec fn lifted(p: int, s: int, x: int) -> int {
    if in_subtree(s, x) {
        let (d, k) = choose|d: nat, k: int| 0 <= k < level_width(d) && x == desc(s, d, k);
        desc(p, d, k)
    } else {
        x
    }
}

pub proof fn lemma_level_width_pos(d: nat)
    ensures
        level_width(d) >= 1,
    decreases d,
{
    if d > 0 {
        lemma_level_width_pos((d - 1) as nat);
    }
}

pub proof fn lemma_desc_root(x: int)
    ensures
        desc(x, 0, 0) == x,
{
    assert(level_width(0) == 1);
    assert((x + 1) * 1 == x + 1);
}

/// The children of `desc(x, d, k)` are `desc(x, d + 1, 2k)` and `desc(x, d + 1, 2k + 1)`.
pub proof fn lemma_desc_children(x: int, d: nat, k: int)
    ensures
        desc(x, d + 1, 2 * k) == 2 * desc(x, d, k) + 1,
        desc(x, d + 1, 2 * k + 1) == 2 * desc(x, d, k) + 2,
{
    let w = level_width(d) as int;
    assert(level_width(d + 1) == 2 * level_width(d));
    assert((x + 1) * (2 * w) == 2 * ((x + 1) * w)) by (nonlinear_arith);
}

/// The parent of `desc(x, d, k)` (for `d >= 1`) is `desc(x, d - 1, k / 2)`, and it
/// is a left child exactly when `k` is even.
pub proof fn lemma_desc_parent(x: int, d: nat, k: int)
    requires
        d >= 1,
        0 <= k,
    ensures
        parent_pos(desc(x, d, k)) == desc(x, (d - 1) as nat, k / 2),
        desc(x, d, k) == 2 * desc(x, (d - 1) as nat, k / 2) + 1 + k % 2,
{
    let d1 = (d - 1) as nat;
    lemma_desc_children(x, d1, k / 2);
    assert(d1 + 1 == d);
}

/// The positions at depth `d + 1` below `x` are those at depth `d` below its left
/// child followed by those at depth `d` below its right child.
pub proof fn lemma_desc_split(x: int, d: nat, k: int)
    requires
        0 <= k < level_width(d + 1),
    ensures
        k < level_width(d) ==> desc(x, d + 1, k) == desc(2 * x + 1, d, k),
        k >= level_width(d) ==> desc(x, d + 1, k) == desc(2 * x + 2, d, k - level_width(d)),
{
    let w = level_width(d) as int;
    assert(level_width(d + 1) == 2 * level_width(d));
    assert((x + 1) * (2 * w) == (2 * x + 1 + 1) * w) by (nonlinear_arith);
    assert((2 * x + 2 + 1) * w == (2 * x + 1 + 1) * w + w) by (nonlinear_arith);
}

/// Within a depth, positions grow with `k`; every position at depth `d` comes
/// before every position at depth `d + 1`; the subtree of `x` starts at `x`.
pub proof fn lemma_desc_bounds(x: int, d: nat, k: int)
    requires
        x >= 0,
        0 <= k < level_width(d),
    ensures
        desc(x, d, k) >= x,
        desc(x, d, k) >= desc(x, d, 0),
        desc(x, d, k) < desc(x, d + 1, 0),
        desc(x, d, 0) >= d,
{
    lemma_level_width_pos(d);
    let w = level_width(d) as int;
    assert(level_width(d + 1) == 2 * level_width(d));
    assert((x + 1) * w >= x + 1) by (nonlinear_arith)
        requires
            x >= 0,
            w >= 1,
    ;
    assert((x + 1) * (2 * w) == (x + 1) * w + (x + 1) * w) by (nonlinear_arith);
    assert((x + 1) * w >= w) by (nonlinear_arith)
        requires
            x >= 0,
            w >= 1,
    ;
    lemma_level_width_ge(d);
}

pub proof fn lemma_level_width_ge(d: nat)
    ensures
        level_width(d) >= d + 1,
    decreases d,
{
    if d > 0 {
        lemma_level_width_ge((d - 1) as nat);
        lemma_level_width_pos((d - 1) as nat);
    }
}

/// Positions deeper below `x` come later.
pub proof fn lemma_desc_deeper(x: int, d1: nat, k1: int, d2: nat, k2: int)
    requires
        x >= 0,
        0 <= k1 < level_width(d1),
        0 <= k2 < level_width(d2),
        d1 < d2,
    ensures
        desc(x, d1, k1) < desc(x, d2, k2),
    decreases d2 - d1,
{
    lemma_desc_bounds(x, d1, k1);
    if d1 + 1 < d2 {
        lemma_level_width_pos(d1 + 1);
        lemma_desc_deeper(x, d1 + 1, 0, d2, k2);
    } else {
        lemma_desc_bounds(x, d2, k2);
    }
}

/// A position determines its depth and offset below `x`.
pub proof fn lemma_desc_injective(x: int, d1: nat, k1: int, d2: nat, k2: int)
    requires
        x >= 0,
        0 <= k1 < level_width(d1),
        0 <= k2 < level_width(d2),
        desc(x, d1, k1) == desc(x, d2, k2),
    ensures
        d1 == d2,
        k1 == k2,
{
    if d1 < d2 {
        lemma_desc_deeper(x, d1, k1, d2, k2);
    } else if d2 < d1 {
        lemma_desc_deeper(x, d2, k2, d1, k1);
    }
}

/// Positions at the same depth and offset grow with the subtree root.
pub proof fn lemma_desc_root_order(x: int, y: int, d: nat, k: int)
    requires
        x < y,
    ensures
        desc(x, d, k) < desc(y, d, k),
{
    lemma_level_width_pos(d);
    let w = level_width(d) as int;
    assert((x + 1) * w < (y + 1) * w) by (nonlinear_arith)
        requires
            x < y,
            w >= 1,
    ;
}

/// Every position of the subtree of a child of `x` lies in the subtree of `x`.
pub proof fn lemma_child_subtree(x: int, c: int, q: int)
    requires
        c == 2 * x + 1 || c == 2 * x + 2,
        in_subtree(c, q),
    ensures
        in_subtree(x, q),
{
    let (d, k) = choose|d: nat, k: int| 0 <= k < level_width(d) && q == desc(c, d, k);
    assert(level_width(d + 1) == 2 * level_width(d));
    if c == 2 * x + 1 {
        lemma_desc_split(x, d, k);
        assert(q == desc(x, d + 1, k));
    } else {
        lemma_desc_split(x, d, k + level_width(d));
        assert(q == desc(x, d + 1, k + level_width(d)));
    }
}

/// A position of the subtree of `x` other than `x` lies in the subtree of one of its children.
pub proof fn lemma_subtree_cases(x: int, q: int)
    requires
        x >= 0,
        in_subtree(x, q),
        q != x,
    ensures
        in_subtree(2 * x + 1, q) || in_subtree(2 * x + 2, q),
{
    let (d, k) = choose|d: nat, k: int| 0 <= k < level_width(d) && q == desc(x, d, k);
    if d == 0 {
        assert(k == 0);
        lemma_desc_root(x);
    } else {
        let d1 = (d - 1) as nat;
        assert(d1 + 1 == d);
        lemma_desc_split(x, d1, k);
        if k < level_width(d1) {
            assert(q == desc(2 * x + 1, d1, k));
        } else {
            assert(q == desc(2 * x + 2, d1, k - level_width(d1)));
        }
    }
}

/// The parent of a position of the subtree of `x`, other than `x`, is in the subtree too.
pub proof fn lemma_subtree_parent(x: int, q: int)
    requires
        x >= 0,
        in_subtree(x, q),
        q != x,
    ensures
        in_subtree(x, parent_pos(q)),
        q > x,
{
    let (d, k) = choose|d: nat, k: int| 0 <= k < level_width(d) && q == desc(x, d, k);
    if d == 0 {
        lemma_desc_root(x);
    } else {
        let d1 = (d - 1) as nat;
        lemma_desc_parent(x, d, k);
        assert(level_width(d) == 2 * level_width(d1));
        assert(k / 2 < level_width(d1));
        assert(parent_pos(q) == desc(x, d1, k / 2));
        lemma_desc_bounds(x, d, k);
        lemma_level_width_pos(d1);
        lemma_desc_deeper(x, 0, 0, d, k);
    }
}

/// `x` lies in its own subtree.
pub proof fn lemma_subtree_self(x: int)
    ensures
        in_subtree(x, x),
{
    lemma_desc_root(x);
    assert(desc(x, 0, 0) == x);
}

/// The subtrees of the two children of a position are disjoint.
pub proof fn lemma_children_disjoint(x: int, q: int)
    requires
        x >= 0,
    ensures
        !(in_subtree(2 * x + 1, q) && in_subtree(2 * x + 2, q)),
{
    let c1 = 2 * x + 1;
    let c2 = 2 * x + 2;
    if in_subtree(c1, q) && in_subtree(c2, q) {
        let (d1, k1) = choose|d: nat, k: int| 0 <= k < level_width(d) && q == desc(c1, d, k);
        let (d2, k2) = choose|d: nat, k: int| 0 <= k < level_width(d) && q == desc(c2, d, k);
        assert(level_width(d1 + 1) == 2 * level_width(d1));
        assert(level_width(d2 + 1) == 2 * level_width(d2));
        lemma_desc_split(x, d1, k1);
        lemma_desc_split(x, d2, k2 + level_width(d2));
        lemma_desc_injective(x, d1 + 1, k1, d2 + 1, k2 + level_width(d2));
    }
}

/// Below a node that is not a split node, a well-formed layout holds only empty nodes.
pub proof fn lemma_below_non_split_empty<Tab>(nodes: Seq<Node<Tab>>, x: int, d: nat, k: int)
    requires
        layout_wf(nodes),
        x >= 0,
        !node_at(nodes, x).is_split_node(),
        d >= 1,
        0 <= k < level_width(d),
    ensures
        node_at(nodes, desc(x, d, k)) is Empty,
    decreases d,
{
    let d1 = (d - 1) as nat;
    let q = desc(x, d, k);
    let pq = desc(x, d1, k / 2);
    assert(level_width(d) == 2 * level_width(d1));
    lemma_desc_parent(x, d, k);
    assert(parent_pos(q) == pq);
    lemma_desc_bounds(x, d, k);
    assert(q >= 1);
    if d1 >= 1 {
        lemma_below_non_split_empty(nodes, x, d1, k / 2);
        assert(!node_at(nodes, pq).is_split_node());
    } else {
        assert(k / 2 == 0);
        lemma_desc_root(x);
        assert(pq == x);
    }
    assert(pq < q);
    if 0 <= q < nodes.len() && !(nodes[q] is Empty) {
        lemma_layout_wf_parent(nodes, q);
        assert(node_at(nodes, pq) == nodes[pq]);
    }
}

} // verus!

verus! {

/// `level_width` agrees with vstd's `pow2`.
pub proof fn lemma_level_width_pow2(d: nat)
    ensures
        level_width(d) == vstd::arithmetic::power2::pow2(d),
    decreases d,
{
    if d == 0 {
        vstd::arithmetic::power2::lemma2_to64();
    } else {
        lemma_level_width_pow2((d - 1) as nat);
        vstd::arithmetic::power2::lemma_pow2_unfold(d);
    }
}

/// A positive number `x` with `n` binary digits satisfies `2^(n-1) <= x < 2^n`.
pub proof fn lemma_bit_length_bounds(x: nat)
    requires
        x >= 1,
    ensures
        crate::tree::node_index::bit_length(x) >= 1,
        level_width((crate::tree::node_index::bit_length(x) - 1) as nat) <= x,
        x < level_width(crate::tree::node_index::bit_length(x)),
    decreases x,
{
    let n = crate::tree::node_index::bit_length(x);
    if x == 1 {
        assert(crate::tree::node_index::bit_length(0) == 0);
        assert(n == 1);
        assert(level_width(1) == 2 * level_width(0));
    } else {
        lemma_bit_length_bounds(x / 2);
        let m = crate::tree::node_index::bit_length(x / 2);
        assert(n == m + 1);
        assert(level_width(n) == 2 * level_width(m));
        assert(level_width(m) == 2 * level_width((m - 1) as nat));
    }
}

/// `level_width` does not decrease.
pub proof fn lemma_level_width_mono(a: nat, b: nat)
    requires
        a <= b,
    ensures
        level_width(a) <= level_width(b),
    decreases b - a,
{
    if a < b {
        lemma_level_width_mono(a, (b - 1) as nat);
        lemma_level_width_pos((b - 1) as nat);
    }
}

/// The vector length chosen when a tree grows to hold the children of its last
/// non-empty position `last`: `2^(bit_length(last + 1) + 1)`, which exceeds the
/// children's positions and stays within half the index range.
pub proof fn lemma_grow_len(last: nat, len: nat)
    requires
        last < len,
        len <= usize::MAX / 8,
    ensures
        ({
            let level = crate::tree::node_index::bit_length(last + 1);
            &&& level + 1 < usize::BITS
            &&& level_width(level + 1) <= usize::MAX / 2
            &&& level_width(level + 1) > 2 * last + 2
        }),
{
    let level = crate::tree::node_index::bit_length(last + 1);
    lemma_bit_length_bounds(last + 1);
    let l1 = (level - 1) as nat;
    assert(level_width(level) == 2 * level_width(l1));
    assert(level_width(level + 1) == 2 * level_width(level));
    if level + 1 >= usize::BITS {
        lemma_level_width_mono(usize::BITS as nat, level + 1);
        lemma_level_width_pow2(usize::BITS as nat);
        vstd::arithmetic::power2::lemma2_to64();
        assert(level_width(usize::BITS as nat) > usize::MAX);
    }
}

/// The children of a position of the subtree of `p` lie in the subtree of `p`.
pub proof fn lemma_subtree_child(p: int, x: int, c: int)
    requires
        in_subtree(p, x),
        c == 2 * x + 1 || c == 2 * x + 2,
    ensures
        in_subtree(p, c),
{
    let (d, k) = choose|d: nat, k: int| 0 <= k < level_width(d) && x == desc(p, d, k);
    lemma_desc_children(p, d, k);
    assert(level_width(d + 1) == 2 * level_width(d));
    if c == 2 * x + 1 {
        assert(c == desc(p, d + 1, 2 * k));
    } else {
        assert(c == desc(p, d + 1, 2 * k + 1));
    }
}

/// Moving the subtree of `s` up over its parent `p`, whose other child is a leaf,
/// keeps a layout well formed.
pub proof fn lemma_subtree_moved_wf<Tab>(
    before: Seq<Node<Tab>>,
    after: Seq<Node<Tab>>,
    p: int,
    s: int,
)
    requires
        layout_wf(before),
        0 <= p < before.len(),
        before[p].is_split_node(),
        s == 2 * p + 1 || s == 2 * p + 2,
        subtree_moved(before, after, p, s),
    ensures
        layout_wf(after),
{
    lemma_layout_wf_children(before, p);
    assert forall|i: int|
        0 <= i < after.len() && (#[trigger] after[i]).is_split_node() implies {
        &&& !(node_at(after, 2 * i + 1) is Empty)
        &&& !(node_at(after, 2 * i + 2) is Empty)
    } by {
        assert(node_at(after, i) == after[i]);
        if in_subtree(p, i) {
            let (d, k) = choose|d: nat, k: int| 0 <= k < level_width(d) && i == desc(p, d, k);
            let b = desc(s, d, k);
            assert(node_at(after, desc(p, d, k)) == node_at(before, b));
            assert(0 <= b < before.len());
            lemma_layout_wf_children(before, b);
            lemma_desc_children(p, d, k);
            lemma_desc_children(s, d, k);
            assert(level_width(d + 1) == 2 * level_width(d));
            assert(node_at(after, desc(p, d + 1, 2 * k)) == node_at(before, desc(s, d + 1, 2 * k)));
            assert(node_at(after, desc(p, d + 1, 2 * k + 1)) == node_at(
                before,
                desc(s, d + 1, 2 * k + 1),
            ));
        } else {
            assert(after[i] == before[i]);
            lemma_layout_wf_children(before, i);
            let c1 = 2 * i + 1;
            let c2 = 2 * i + 2;
            lemma_desc_root(p);
            lemma_desc_root(s);
            assert(node_at(after, desc(p, 0, 0)) == node_at(before, desc(s, 0, 0)));
            if in_subtree(p, c1) {
                if c1 != p {
                    lemma_subtree_parent(p, c1);
                    assert(parent_pos(c1) == i);
                }
            } else {
                assert(after[c1] == before[c1]);
            }
            if in_subtree(p, c2) {
                if c2 != p {
                    lemma_subtree_parent(p, c2);
                    assert(parent_pos(c2) == i);
                }
            } else {
                assert(after[c2] == before[c2]);
            }
        }
    }
    assert forall|i: int|
        0 < i < after.len() && !(#[trigger] after[i] is Empty) implies after[parent_pos(
        i,
    )].is_split_node() by {
        assert(node_at(after, i) == after[i]);
        let pi = parent_pos(i);
        if in_subtree(p, i) {
            let (d, k) = choose|d: nat, k: int| 0 <= k < level_width(d) && i == desc(p, d, k);
            if d == 0 {
                lemma_desc_root(p);
                assert(i == p);
                lemma_layout_wf_parent(before, p);
                if in_subtree(p, pi) {
                    lemma_subtree_parent(p, pi);
                    lemma_desc_bounds(p, d, k);
                }
                assert(after[pi] == before[pi]);
            } else {
                let b = desc(s, d, k);
                assert(node_at(after, desc(p, d, k)) == node_at(before, b));
                lemma_desc_parent(p, d, k);
                lemma_desc_parent(s, d, k);
                let d1 = (d - 1) as nat;
                assert(level_width(d) == 2 * level_width(d1));
                lemma_desc_bounds(s, d, k);
                lemma_layout_wf_parent(before, b);
                assert(node_at(after, desc(p, d1, k / 2)) == node_at(before, desc(s, d1, k / 2)));
                assert(pi == desc(p, d1, k / 2));
                lemma_desc_bounds(p, d1, k / 2);
                assert(node_at(after, pi) == after[pi]);
            }
        } else {
            assert(after[i] == before[i]);
            lemma_layout_wf_parent(before, i);
            if in_subtree(p, pi) {
                lemma_subtree_child(p, pi, i);
            }
            assert(after[pi] == before[pi]);
        }
    }
    lemma_layout_wf_intro(after);
}

/// Two node vectors have the same shape: the same length, and at each position the
/// same kind of node (empty, leaf, or split node).
pub open spec fn same_shape<A, B>(a: Seq<Node<A>>, b: Seq<Node<B>>) -> bool {
    &&& a.len() == b.len()
    &&& forall|i: int|
        0 <= i < a.len() ==> {
            &&& (#[trigger] a[i] is Empty <==> b[i] is Empty)
            &&& (a[i] is Leaf <==> b[i] is Leaf)
            &&& (a[i].is_split_node() <==> b[i].is_split_node())
        }
}

/// Changing what leaves hold keeps a layout well formed.
pub proof fn lemma_same_shape_wf<A, B>(a: Seq<Node<A>>, b: Seq<Node<B>>)
    requires
        layout_wf(a),
        same_shape(a, b),
    ensures
        layout_wf(b),
{
    assert forall|i: int|
        0 <= i < b.len() && (#[trigger] b[i]).is_split_node() implies {
        &&& !(node_at(b, 2 * i + 1) is Empty)
        &&& !(node_at(b, 2 * i + 2) is Empty)
    } by {
        assert(a[i].is_split_node());
        lemma_layout_wf_children(a, i);
        assert(a[2 * i + 1] is Empty <==> b[2 * i + 1] is Empty);
        assert(a[2 * i + 2] is Empty <==> b[2 * i + 2] is Empty);
    }
    assert forall|i: int|
        0 < i < b.len() && !(#[trigger] b[i] is Empty) implies b[parent_pos(i)].is_split_node() by {
        assert(!(a[i] is Empty));
        lemma_layout_wf_parent(a, i);
        assert(a[parent_pos(i)].is_split_node() <==> b[parent_pos(i)].is_split_node());
    }
    lemma_layout_wf_intro(b);
}

/// In a well-formed layout with an empty root, every position is empty.
pub proof fn lemma_empty_root<Tab>(nodes: Seq<Node<Tab>>, j: int)
    requires
        layout_wf(nodes),
        nodes.len() > 0,
        nodes[0] is Empty,
        0 <= j < nodes.len(),
    ensures
        nodes[j] is Empty,
    decreases j,
{
    if j > 0 && !(nodes[j] is Empty) {
        lemma_layout_wf_parent(nodes, j);
        lemma_empty_root(nodes, parent_pos(j));
    }
}

/// In position order, the first node that is not a split node, from position `i` on
/// (the vector length when there is none).
pub open spec fn first_non_split<Tab>(nodes: Seq<Node<Tab>>, i: int) -> int
    decreases nodes.len() - i,
{
    if i < 0 || i >= nodes.len() {
        nodes.len() as int
    } else if !nodes[i].is_split_node() {
        i
    } else {
        first_non_split(nodes, i + 1)
    }
}

/// Changing what one leaf holds keeps a layout well formed.
pub proof fn lemma_leaf_changed_wf<Tab>(a: Seq<Node<Tab>>, b: Seq<Node<Tab>>, i: int)
    requires
        layout_wf(a),
        a.len() == b.len(),
        0 <= i < a.len(),
        a[i] is Leaf,
        b[i] is Leaf,
        forall|q: int| 0 <= q < a.len() && q != i ==> #[trigger] b[q] == a[q],
    ensures
        layout_wf(b),
        same_shape(a, b),
{
    assert forall|j: int| 0 <= j < a.len() implies {
        &&& (#[trigger] a[j] is Empty <==> b[j] is Empty)
        &&& (a[j] is Leaf <==> b[j] is Leaf)
        &&& (a[j].is_split_node() <==> b[j].is_split_node())
    } by {
        if j != i {
            assert(b[j] == a[j]);
        }
    }
    lemma_same_shape_wf(a, b);
}

/// Turning the empty root of an all-empty layout into a leaf keeps it well formed.
pub proof fn lemma_root_leaf_wf<Tab>(a: Seq<Node<Tab>>, b: Seq<Node<Tab>>)
    requires
        layout_wf(a),
        a.len() == b.len(),
        a.len() > 0,
        a[0] is Empty,
        b[0] is Leaf,
        forall|q: int| 0 < q < a.len() ==> #[trigger] b[q] == a[q],
    ensures
        layout_wf(b),
{
    assert forall|j: int| 0 < j < a.len() implies #[trigger] b[j] is Empty by {
        lemma_empty_root(a, j);
        assert(b[j] == a[j]);
    }
    assert forall|i: int|
        0 < i < b.len() && !(#[trigger] b[i] is Empty) implies b[parent_pos(i)].is_split_node() by {}
    assert forall|i: int|
        0 <= i < b.len() && (#[trigger] b[i]).is_split_node() implies {
        &&& !(node_at(b, 2 * i + 1) is Empty)
        &&& !(node_at(b, 2 * i + 2) is Empty)
    } by {
        if i > 0 {
            assert(b[i] is Empty);
        }
    }
    lemma_layout_wf_intro(b);
}

/// In position order, the first node that is not a split node is a leaf, or the empty
/// root of an all-empty layout.
pub proof fn lemma_first_non_split_kind<Tab>(a: Seq<Node<Tab>>, i: int)
    requires
        layout_wf(a),
        0 <= i < a.len(),
        a[i] is Empty,
        forall|j: int| 0 <= j < i ==> (#[trigger] a[j]).is_split_node(),
    ensures
        i == 0,
{
    if i > 0 {
        let pj = parent_pos(i);
        assert(a[pj].is_split_node());
        lemma_layout_wf_children(a, pj);
        assert(i == 2 * pj + 1 || i == 2 * pj + 2);
    }
}

/// A non-empty well-formed layout has a node that is not a split node.
pub proof fn lemma_has_non_split<Tab>(a: Seq<Node<Tab>>)
    requires
        layout_wf(a),
        a.len() > 0,
    ensures
        !a[a.len() - 1].is_split_node(),
{
    let last = a.len() - 1;
    if a[last].is_split_node() {
        lemma_layout_wf_children(a, last);
    }
}

/// The first node that is not a split node, when it is not empty, is a leaf.
pub proof fn lemma_first_non_split_kind_leaf<Tab>(a: Seq<Node<Tab>>, i: int)
    requires
        i == first_non_split(a, 0),
        0 <= i < a.len(),
        !(a[i] is Empty),
    ensures
        a[i] is Leaf,
{
    lemma_first_non_split_is_non_split(a, 0);
}

/// The first node that is not a split node from `j` on is not a split node.
pub proof fn lemma_first_non_split_is_non_split<Tab>(a: Seq<Node<Tab>>, j: int)
    requires
        0 <= j,
    ensures
        first_non_split(a, j) < a.len() ==> !a[first_non_split(a, j)].is_split_node(),
        first_non_split(a, j) <= a.len(),
        j <= a.len() ==> j <= first_non_split(a, j),
    decreases a.len() - j,
{
    if j < a.len() && a[j].is_split_node() {
        lemma_first_non_split_is_non_split(a, j + 1);
    }
}

} // verus!
