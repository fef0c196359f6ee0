//! Moving the subtree of a child up to take the place of its parent, level by
//! level, as done when a leaf is removed from a [`Tree`].

use vstd::prelude::*;

use super::layout::{desc, in_subtree, level_width, lifted, node_at};
use super::layout;
use super::{Node, NodeIndex, Tree};

verus! {

/// The other child of `p`, given one child `s`.
pub open spec fn other_child(p: int, s: int) -> int {
    if s == 2 * p + 1 {
        2 * p + 2
    } else {
        2 * p + 1
    }
}

/// Offset, among the positions at depth `d + 1` below `p`, of the first position at
/// depth `d` below its child `s`.
pub open spec fn child_offset(p: int, s: int, d: nat) -> int {
    if s == 2 * p + 1 {
        0
    } else {
        level_width(d) as int
    }
}

/// Whether position `(d, j)` below the moved subtree has already been moved when the
/// move is at depth `level`, offset `k`.
pub open spec fn processed(level: nat, k: int, d: nat, j: int) -> bool {
    d < level || (d == level && j < k)
}

/// What position `(d, i)` below `p` holds while the subtree of `s` is being moved up,
/// once everything before depth `level`, offset `k` has been moved.
pub open spec fn in_progress<Tab>(
    g: Seq<Node<Tab>>,
    p: int,
    s: int,
    level: nat,
    k: int,
    d: nat,
    i: int,
) -> Node<Tab> {
    if d < level {
        node_at(g, desc(s, d, i))
    } else if d == level {
        if i < k {
            node_at(g, desc(s, d, i))
        } else {
            Node::Empty
        }
    } else if d == level + 1 && child_offset(p, s, level) <= i < child_offset(p, s, level) + k {
        Node::Empty
    } else {
        node_at(g, desc(p, d, i))
    }
}

proof fn lemma_child_offset(p: int, s: int, d: nat, j: int)
    requires
        p >= 0,
        s == 2 * p + 1 || s == 2 * p + 2,
        0 <= j < level_width(d),
    ensures
        desc(s, d, j) == desc(p, d + 1, j + child_offset(p, s, d)),
        desc(other_child(p, s), d, j) == desc(p, d + 1, j + level_width(d) - child_offset(p, s, d)),
        0 <= child_offset(p, s, d) <= level_width(d),
        level_width(d + 1) == 2 * level_width(d),
{
    assert(level_width(d + 1) == 2 * level_width(d));
    layout::lemma_desc_split(p, d, j);
    layout::lemma_desc_split(p, d, j + level_width(d));
}

/// The position `(d, j)` below `s` ends up at position `(d, j)` below `p`.
proof fn lemma_lifted_desc(p: int, s: int, d: nat, j: int)
    requires
        s >= 0,
        0 <= j < level_width(d),
    ensures
        lifted(p, s, desc(s, d, j)) == desc(p, d, j),
{
    let x = desc(s, d, j);
    assert(in_subtree(s, x));
    let (d2, j2) = choose|d2: nat, j2: int| 0 <= j2 < level_width(d2) && x == desc(s, d2, j2);
    layout::lemma_desc_injective(s, d, j, d2, j2);
}

/// The position `(d, j)` below `s` ends up at position `(d, j)` below `p`.
pub proof fn lemma_lifted_desc_pub(p: int, s: int, d: nat, j: int)
    requires
        s >= 0,
        0 <= j < level_width(d),
    ensures
        lifted(p, s, desc(s, d, j)) == desc(p, d, j),
{
    lemma_lifted_desc(p, s, d, j);
}

/// Two positions below `p` with different coordinates differ.
proof fn lemma_distinct(p: int, d1: nat, i1: int, d2: nat, i2: int)
    requires
        p >= 0,
        0 <= i1 < level_width(d1),
        0 <= i2 < level_width(d2),
        d1 != d2 || i1 != i2,
    ensures
        desc(p, d1, i1) != desc(p, d2, i2),
{
    if desc(p, d1, i1) == desc(p, d2, i2) {
        layout::lemma_desc_injective(p, d1, i1, d2, i2);
    }
}

impl<Tab> Tree<Tab> {
    /// Moves the subtree rooted at position `s` up so that it is rooted at its parent
    /// position `p`, level by level; the other child's subtree and `p` itself must be
    /// empty. A focus inside the moved subtree moves along with it.
    pub(super) fn move_subtree_up(&mut self, p: usize, s: usize)
        requires
            p < s < old(self).nodes().len(),
            s == 2 * p + 1 || s == 2 * p + 2,
            old(self).nodes().len() <= usize::MAX / 2,
            node_at(old(self).nodes(), p as int) is Empty,
            forall|d: nat, k: int|
                0 <= k < level_width(d) ==> #[trigger] node_at(
                    old(self).nodes(),
                    desc(other_child(p as int, s as int), d, k),
                ) is Empty,
            old(self).focus() matches Some(f) ==> f.0 < old(self).nodes().len(),
        ensures
            layout::subtree_moved(old(self).nodes(), final(self).nodes(), p as int, s as int),
            final(self).focus() == (match old(self).focus() {
                Some(f) => Some(NodeIndex(lifted(p as int, s as int, f.0 as int) as usize)),
                None => None,
            }),
    {
        let ghost g = self.tree@;
        let ghost f0 = self.focused_node;
        let ghost pi = p as int;
        let ghost si = s as int;
        let len = self.tree.len();
        let mut base: usize = 1;
        let mut dst_start: usize = p;
        let mut src_start: usize = s;
        let ghost mut level: nat = 0;
        proof {
            layout::lemma_desc_root(pi);
            layout::lemma_desc_root(si);
            assert forall|d: nat, i: int| 0 <= i < level_width(d) implies #[trigger] node_at(
                self.tree@,
                desc(pi, d, i),
            ) == in_progress(g, pi, si, 0, 0, d, i) by {
                if d == 0 {
                    assert(i == 0);
                }
            }
        }
        let mut k: usize = 0;
        loop
            invariant_except_break
                k == 0,
                base == level_width(level),
                dst_start == desc(pi, level, 0),
                src_start == desc(si, level, 0),
                src_start < 2 * len,
                dst_start < src_start,
                forall|d: nat, i: int|
                    0 <= i < level_width(d) ==> #[trigger] node_at(self.tree@, desc(pi, d, i))
                        == in_progress(g, pi, si, level, k as int, d, i),
                f0 is None ==> self.focused_node is None,
                f0 matches Some(f) ==> if exists|d: nat, j: int|
                    0 <= j < level_width(d) && processed(level, k as int, d, j) && f.0
                        == #[trigger] desc(si, d, j) {
                    self.focused_node == Some(NodeIndex(lifted(pi, si, f.0 as int) as usize))
                } else {
                    self.focused_node == f0
                },
            invariant
                self.tree@.len() == len,
                len == g.len(),
                len <= usize::MAX / 2,
                p < s < len,
                s == 2 * p + 1 || s == 2 * p + 2,
                pi == p,
                si == s,
                forall|q: int|
                    0 <= q < len && !in_subtree(pi, q) ==> self.tree@[q] == #[trigger] g[q],
                forall|d: nat, j: int|
                    0 <= j < level_width(d) ==> #[trigger] node_at(
                        g,
                        desc(other_child(pi, si), d, j),
                    ) is Empty,
                f0 matches Some(f) ==> f.0 < len,
            ensures
                forall|d: nat, i: int|
                    0 <= i < level_width(d) ==> #[trigger] node_at(self.tree@, desc(pi, d, i))
                        == node_at(g, desc(si, d, i)),
                f0 is None ==> self.focused_node is None,
                f0 matches Some(f) ==> self.focused_node == Some(
                    NodeIndex(lifted(pi, si, f.0 as int) as usize),
                ),
            decreases 2 * len - src_start,
        {
            let mut done = false;
            while k < base
                invariant_except_break
                    k <= base,
                    !done,
                    k == 0 || src_start + k <= len,
                invariant
                    self.tree@.len() == len,
                    len == g.len(),
                    len <= usize::MAX / 2,
                    p < s < len,
                    s == 2 * p + 1 || s == 2 * p + 2,
                    pi == p,
                    si == s,
                    base == level_width(level),
                    dst_start == desc(pi, level, 0),
                    src_start == desc(si, level, 0),
                    dst_start < src_start,
                    src_start < 2 * len,
                    forall|q: int|
                        0 <= q < len && !in_subtree(pi, q) ==> self.tree@[q] == #[trigger] g[q],
                    forall|d: nat, i: int|
                        0 <= i < level_width(d) ==> #[trigger] node_at(self.tree@, desc(pi, d, i))
                            == in_progress(g, pi, si, level, k as int, d, i),
                    forall|d: nat, j: int|
                        0 <= j < level_width(d) ==> #[trigger] node_at(
                            g,
                            desc(other_child(pi, si), d, j),
                        ) is Empty,
                    f0 matches Some(f) ==> f.0 < len,
                    f0 is None ==> self.focused_node is None,
                    f0 matches Some(f) ==> if exists|d: nat, j: int|
                        0 <= j < level_width(d) && processed(level, k as int, d, j) && f.0
                            == #[trigger] desc(si, d, j) {
                        self.focused_node == Some(
                            NodeIndex(lifted(pi, si, f.0 as int) as usize),
                        )
                    } else {
                        self.focused_node == f0
                    },
                ensures
                    done ==> src_start + k >= len && k < base,
                    !done ==> k == base && src_start + base <= len,
                decreases base - k,
            {
                if k >= len || src_start >= len - k {
                    done = true;
                    break;
                }
                let src = src_start + k;
                proof {
                    layout::lemma_desc_root_order(pi, si, level, k as int);
                }
                let dst = dst_start + k;
                let ghost cur = self.tree@;
                let ghost focus_cur = self.focused_node;
                assert(desc(si, level, k as int) == src);
                assert(desc(pi, level, k as int) == dst);
                let mut moved = Node::Empty;
                std::mem::swap(&mut self.tree[src], &mut moved);
                self.tree[dst] = moved;
                match self.focused_node {
                    Some(f) => {
                        if f.0 == src {
                            self.focused_node = Some(NodeIndex(dst));
                        }
                    },
                    None => {},
                }
                proof {
                    let ki = k as int;
                    lemma_child_offset(pi, si, level, ki);
                    let off = child_offset(pi, si, level);
                    assert(src == desc(pi, level + 1, ki + off));
                    // The moved node, read before the move.
                    assert(node_at(cur, desc(pi, level + 1, ki + off)) == in_progress(
                        g,
                        pi,
                        si,
                        level,
                        ki,
                        level + 1,
                        ki + off,
                    ));
                    assert(node_at(cur, src as int) == node_at(g, src as int));
                    assert forall|d: nat, i: int| 0 <= i < level_width(d) implies #[trigger] node_at(
                        self.tree@,
                        desc(pi, d, i),
                    ) == in_progress(g, pi, si, level, ki + 1, d, i) by {
                        let x = desc(pi, d, i);
                        if d == level && i == ki {
                            assert(x == dst);
                        } else if d == level + 1 && i == ki + off {
                            assert(x == src);
                        } else {
                            lemma_distinct(pi, d, i, level, ki);
                            lemma_distinct(pi, d, i, level + 1, ki + off);
                            assert(node_at(self.tree@, x) == node_at(cur, x));
                        }
                    }
                    assert forall|q: int| 0 <= q < len && !in_subtree(pi, q) implies self.tree@[q]
                        == #[trigger] g[q] by {
                        assert(in_subtree(pi, dst as int));
                        assert(in_subtree(pi, src as int));
                    }
                    if let Some(f) = f0 {
                        let was = exists|d: nat, j: int|
                            0 <= j < level_width(d) && processed(level, ki, d, j) && f.0
                                == #[trigger] desc(si, d, j);
                        let now = exists|d: nat, j: int|
                            0 <= j < level_width(d) && processed(level, ki + 1, d, j) && f.0
                                == #[trigger] desc(si, d, j);
                        if was {
                            let (d, j) = choose|d: nat, j: int|
                                0 <= j < level_width(d) && processed(level, ki, d, j) && f.0
                                    == #[trigger] desc(si, d, j);
                            assert(processed(level, ki + 1, d, j));
                            assert(now);
                            lemma_lifted_desc(pi, si, d, j);
                            assert(focus_cur == Some(NodeIndex(desc(pi, d, j) as usize)));
                            lemma_distinct(pi, d, j, level + 1, ki + off);
                            layout::lemma_desc_bounds(pi, d, j);
                            if d < level {
                                layout::lemma_desc_deeper(pi, d, j, level, ki);
                            }
                            assert(0 <= desc(pi, d, j) < dst);
                            assert(desc(pi, d, j) != src);
                            assert(self.focused_node == focus_cur);
                        } else if f.0 == src {
                            assert(processed(level, ki + 1, level, ki));
                            assert(f.0 == desc(si, level, ki));
                            assert(now);
                            assert(focus_cur == f0);
                            lemma_lifted_desc(pi, si, level, ki);
                            assert(self.focused_node == Some(NodeIndex(dst)));
                        } else {
                            assert(focus_cur == f0);
                            if now {
                                let (d, j) = choose|d: nat, j: int|
                                    0 <= j < level_width(d) && processed(level, ki + 1, d, j) && f.0
                                        == #[trigger] desc(si, d, j);
                                if !processed(level, ki, d, j) {
                                    assert(d == level && j == ki);
                                }
                                assert(false);
                            }
                            assert(self.focused_node == f0);
                        }
                    }
                }
                k = k + 1;
            }
            if done {
                proof {
                    lemma_finish(g, pi, si, level, k as int, self.tree@);
                    if let Some(f) = f0 {
                        if in_subtree(si, f.0 as int) {
                            let (d, j) = choose|d: nat, j: int|
                                0 <= j < level_width(d) && f.0 == desc(si, d, j);
                            if !processed(level, k as int, d, j) {
                                lemma_after_break(si, level, k as int, d, j);
                            }
                            assert(processed(level, k as int, d, j));
                        } else {
                            if exists|d: nat, j: int|
                                0 <= j < level_width(d) && processed(level, k as int, d, j) && f.0
                                    == #[trigger] desc(si, d, j) {
                                let (d, j) = choose|d: nat, j: int|
                                    0 <= j < level_width(d) && processed(level, k as int, d, j)
                                        && f.0 == #[trigger] desc(si, d, j);
                                assert(in_subtree(si, f.0 as int));
                            }
                        }
                    }
                }
                break;
            }
            proof {
                lemma_next_level(g, pi, si, level);
                layout::lemma_desc_children(pi, level, 0);
                layout::lemma_desc_children(si, level, 0);
                layout::lemma_desc_root_order(pi, si, level + 1, 0);
                assert(level_width(level + 1) == 2 * level_width(level));
                layout::lemma_level_width_pos(level);
                if let Some(f) = f0 {
                    assert forall|d: nat, j: int|
                        0 <= j < level_width(d) implies #[trigger] processed(level, base as int, d, j)
                        == processed(level + 1, 0, d, j) by {}
                }
            }
            base = base * 2;
            dst_start = dst_start * 2 + 1;
            src_start = src_start * 2 + 1;
            k = 0;
            proof {
                level = level + 1;
            }
        }
    }
}

/// Once a depth has been moved completely, the state is that of the start of the next depth.
proof fn lemma_next_level<Tab>(g: Seq<Node<Tab>>, p: int, s: int, level: nat)
    requires
        p >= 0,
        s == 2 * p + 1 || s == 2 * p + 2,
        forall|d: nat, j: int|
            0 <= j < level_width(d) ==> #[trigger] node_at(g, desc(other_child(p, s), d, j)) is Empty,
    ensures
        forall|d: nat, i: int|
            0 <= i < level_width(d) ==> #[trigger] in_progress(
                g,
                p,
                s,
                level,
                level_width(level) as int,
                d,
                i,
            ) == in_progress(g, p, s, level + 1, 0, d, i),
{
    assert forall|d: nat, i: int| 0 <= i < level_width(d) implies #[trigger] in_progress(
        g,
        p,
        s,
        level,
        level_width(level) as int,
        d,
        i,
    ) == in_progress(g, p, s, level + 1, 0, d, i) by {
        if d == level + 1 {
            let (in_s, j) = lemma_next_level_cases(p, s, level, i);
            lemma_child_offset(p, s, level, j);
            if !in_s {
                assert(node_at(g, desc(other_child(p, s), level, j)) is Empty);
            }
        }
    }
}

/// Every position at depth `d + 1` below `p` is a position at depth `d` below
/// `s` or below the other child of `p`.
proof fn lemma_next_level_cases(p: int, s: int, d: nat, k: int) -> (r: (bool, int))
    requires
        p >= 0,
        s == 2 * p + 1 || s == 2 * p + 2,
        0 <= k < level_width(d + 1),
    ensures
        0 <= r.1 < level_width(d),
        r.0 ==> desc(p, d + 1, k) == desc(s, d, r.1) && k == r.1 + child_offset(p, s, d),
        !r.0 ==> desc(p, d + 1, k) == desc(other_child(p, s), d, r.1) && !(child_offset(p, s, d) <= k < child_offset(p, s, d) + level_width(d)),
{
    layout::lemma_desc_split(p, d, k);
    assert(level_width(d + 1) == 2 * level_width(d));
    if k < level_width(d) {
        (s == 2 * p + 1, k)
    } else {
        (s == 2 * p + 2, k - level_width(d))
    }
}

/// A position of the subtree of `s` at or after `desc(s, l, k)` (in depth-then-offset
/// order) is at least `desc(s, l, k)`.
proof fn lemma_after_break(s: int, l: nat, k: int, d: nat, j: int)
    requires
        s >= 0,
        0 <= k < level_width(l),
        0 <= j < level_width(d),
        !processed(l, k, d, j),
    ensures
        desc(s, d, j) >= desc(s, l, k),
{
    if d > l {
        layout::lemma_desc_deeper(s, l, k, d, j);
    }
}

/// When the move stops at depth `level`, offset `k`, because the next source lies
/// outside the vector, the subtree has been moved completely.
proof fn lemma_finish<Tab>(g: Seq<Node<Tab>>, p: int, s: int, level: nat, k: int, cur: Seq<Node<Tab>>)
    requires
        p >= 0,
        s == 2 * p + 1 || s == 2 * p + 2,
        0 <= k < level_width(level),
        desc(s, level, k) >= g.len(),
        forall|d: nat, j: int|
            0 <= j < level_width(d) ==> #[trigger] node_at(g, desc(other_child(p, s), d, j)) is Empty,
        forall|d: nat, i: int|
            0 <= i < level_width(d) ==> #[trigger] node_at(cur, desc(p, d, i)) == in_progress(
                g,
                p,
                s,
                level,
                k,
                d,
                i,
            ),
    ensures
        forall|d: nat, i: int|
            0 <= i < level_width(d) ==> #[trigger] node_at(cur, desc(p, d, i)) == node_at(
                g,
                desc(s, d, i),
            ),
{
    assert forall|d: nat, i: int| 0 <= i < level_width(d) implies #[trigger] node_at(
        cur,
        desc(p, d, i),
    ) == node_at(g, desc(s, d, i)) by {
        assert(node_at(cur, desc(p, d, i)) == in_progress(g, p, s, level, k, d, i));
        if !processed(level, k, d, i) {
            lemma_after_break(s, level, k, d, i);
        }
        if d > level {
            let d1 = (d - 1) as nat;
            assert(d1 + 1 == d);
            let (in_s, j) = lemma_next_level_cases(p, s, d1, i);
            lemma_child_offset(p, s, d1, j);
            if in_s {
                if d1 > level || j >= k {
                    lemma_after_break(s, level, k, d1, j);
                }
            }
        }
    }
}

} // verus!
