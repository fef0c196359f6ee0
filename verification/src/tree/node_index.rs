use vstd::prelude::*;
use vstd::std_specs::convert::FromSpecImpl;

verus! {

/// Wrapper around indices to the collection of nodes inside a [`Tree`](crate::Tree).
///
/// Nodes are laid out as a binary heap: the root is at index `0`, and the
/// children of the node at index `n` are at `2n + 1` (left) and `2n + 2` (right).
#[derive(Clone, Copy, Debug, PartialEq, Eq, Structural, Hash)]
pub struct NodeIndex(pub usize);

/// Number of binary digits of `x` (`0` for `0`).
pub open spec fn bit_length(x: nat) -> nat
    decreases x,
{
    if x == 0 {
        0
    } else {
        1 + bit_length(x / 2)
    }
}

proof fn lemma_bit_length_leading_zeros(x: u64)
    ensures
        64 - vstd::std_specs::bits::u64_leading_zeros(x) == bit_length(x as nat),
    decreases x,
{
    reveal(vstd::std_specs::bits::u64_leading_zeros);
    if x != 0 {
        lemma_bit_length_leading_zeros(x / 2);
    }
}

impl From<usize> for NodeIndex {
    fn from(index: usize) -> (r: NodeIndex)
        ensures
            r.0 == index,
    {
        NodeIndex(index)
    }
}

impl FromSpecImpl<usize> for NodeIndex {
    open spec fn obeys_from_spec() -> bool {
        true
    }

    open spec fn from_spec(v: usize) -> NodeIndex {
        NodeIndex(v)
    }
}

impl NodeIndex {
    /// Returns the index of the root node.
    pub fn root() -> (r: Self)
        ensures
            r.0 == 0,
    {
        Self(0)
    }

    /// Returns the index of the node to the left of the current one.
    pub fn left(self) -> (r: Self)
        requires
            2 * self.0 + 1 <= usize::MAX,
        ensures
            r.0 == 2 * self.0 + 1,
    {
        Self(self.0 * 2 + 1)
    }

    /// Returns the index of the node to the right of the current one.
    pub fn right(self) -> (r: Self)
        requires
            2 * self.0 + 2 <= usize::MAX,
        ensures
            r.0 == 2 * self.0 + 2,
    {
        Self(self.0 * 2 + 2)
    }

    /// Returns the index of the parent node or `None` if current node is the root.
    pub fn parent(self) -> (r: Option<Self>)
        ensures
            self.0 == 0 ==> r is None,
            self.0 > 0 ==> r == Some(Self(((self.0 - 1) / 2) as usize)),
    {
        if self.0 > 0 {
            Some(Self((self.0 - 1) / 2))
        } else {
            None
        }
    }

    /// Returns the number of nodes leading from the root to the current node, including `self`.
    pub fn level(self) -> (r: usize)
        requires
            self.0 < usize::MAX,
        ensures
            r == bit_length(self.0 as nat + 1),
    {
        let x: u64 = (self.0 as u64) + 1;
        let zeros: u32 = x.leading_zeros();
        proof {
            lemma_bit_length_leading_zeros(x);
            vstd::std_specs::bits::axiom_u64_leading_zeros(x);
        }
        (64 - zeros) as usize
    }

    /// Returns true if current node is the left node of its parent, false otherwise.
    pub fn is_left(self) -> (r: bool)
        ensures
            r == (self.0 % 2 != 0),
    {
        self.0 % 2 != 0
    }

    /// Returns true if current node is the right node of its parent, false otherwise.
    pub fn is_right(self) -> (r: bool)
        ensures
            r == (self.0 % 2 == 0),
    {
        self.0 % 2 == 0
    }
}

/// The children of a node have it as parent, the first is a left node and the
/// second a right node, and both lie one level below it.
pub proof fn lemma_children_of(n: NodeIndex)
    ensures
        ((2 * n.0 + 1 - 1) / 2) as usize == n.0,
        ((2 * n.0 + 2 - 1) / 2) as usize == n.0,
        (2 * n.0 + 1) % 2 != 0,
        (2 * n.0 + 2) % 2 == 0,
        bit_length((2 * n.0 + 1 + 1) as nat) == bit_length(n.0 as nat + 1) + 1,
        bit_length((2 * n.0 + 2 + 1) as nat) == bit_length(n.0 as nat + 1) + 1,
{
    assert(((2 * n.0 + 2) as nat) / 2 == n.0 as nat + 1);
    assert(((2 * n.0 + 3) as nat) / 2 == n.0 as nat + 1);
    assert(bit_length((2 * n.0 + 2) as nat) == 1 + bit_length(n.0 as nat + 1));
    assert(bit_length((2 * n.0 + 3) as nat) == 1 + bit_length(n.0 as nat + 1));
}

} // verus!
