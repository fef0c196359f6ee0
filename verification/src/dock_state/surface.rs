use vstd::prelude::*;

use super::window_state::WindowState;
use crate::tree::{
    empties_cleared, filter_mapped_nodes, filtered_nodes, first_empty_leaf, indexed_tabs, indexed_tabs_upto, retained_nodes, Node, NodeIndex, Tree,
};

verus! {

/// A [`Surface`] is the highest level component in a [`DockState`](crate::DockState).
/// [`Surface`]s represent an area in which nodes are placed. Typically, you're only using
/// one surface, which is the main surface. However, if you drag a tab out in a way which
/// creates a window, you also create a new surface in which nodes can appear.
#[derive(Debug)]
pub enum Surface<Tab> {
    /// An empty surface, with nothing inside (a removed window leaves one behind).
    Empty,
    /// The main surface of a [`DockState`](crate::DockState), only one should exist at
    /// surface index 0 at any one time.
    Main(Tree<Tab>),
    /// A windowed surface with a state.
    Window(Tree<Tab>, WindowState),
}

impl<Tab> Surface<Tab> {
    /// The tree of a non-empty surface.
    pub open spec fn tree(&self) -> Tree<Tab>
        recommends
            !(self is Empty),
    {
        match self {
            Surface::Main(tree) => *tree,
            Surface::Window(tree, _) => *tree,
            Surface::Empty => arbitrary(),
        }
    }

    /// The surface with its tree replaced by `tree` (unchanged when empty).
    pub open spec fn with_tree(&self, tree: Tree<Tab>) -> Surface<Tab> {
        match self {
            Surface::Main(_) => Surface::Main(tree),
            Surface::Window(_, state) => Surface::Window(tree, *state),
            Surface::Empty => Surface::Empty,
        }
    }

    /// The nodes of this surface's tree: none for an empty surface.
    pub open spec fn node_seq(&self) -> Seq<Node<Tab>> {
        if *self is Empty {
            Seq::empty()
        } else {
            self.tree().nodes()
        }
    }

    /// Borrows the nodes of this surface's tree, in position order.
    pub fn iter_nodes(&self) -> (r: Vec<&Node<Tab>>)
        ensures
            r@.len() == self.node_seq().len(),
            forall|j: int| 0 <= j < r@.len() ==> *r@[j] == self.node_seq()[j],
    {
        match self.node_tree() {
            Some(tree) => tree.iter(),
            None => Vec::new(),
        }
    }

    /// Mutably borrows the nodes of this surface's tree, in position order: none for an
    /// empty surface.
    ///
    /// What is written through the borrow is not checked: the tree is well formed
    /// afterwards only if the writes keep it so.
    pub fn iter_nodes_mut(&mut self) -> (r: &mut [Node<Tab>])
        ensures
            r@ == old(self).node_seq(),
            *old(self) is Empty ==> *final(self) == *old(self) && final(r)@.len() == 0,
            !(*old(self) is Empty) ==> {
                &&& !(*final(self) is Empty)
                &&& *final(self) == old(self).with_tree(final(self).tree())
                &&& final(self).tree().nodes() == final(r)@
                &&& final(self).tree().focus() == old(self).tree().focus()
            },
    {
        match self {
            Surface::Empty => &mut [],
            Surface::Main(tree) => tree.iter_mut(),
            Surface::Window(tree, _) => tree.iter_mut(),
        }
    }

    /// Borrows all tabs of this surface's tree, each with the index of its node, in
    /// position order.
    pub fn iter_all_tabs(&self) -> (r: Vec<(NodeIndex, &Tab)>)
        ensures
            r@.len() == indexed_tabs(self.node_seq()).len(),
            forall|j: int|
                0 <= j < r@.len() ==> r@[j].0 == indexed_tabs(self.node_seq())[j].0 && *r@[j].1
                    == indexed_tabs(self.node_seq())[j].1,
    {
        let nodes = self.iter_nodes();
        let ghost ns = self.node_seq();
        let mut out: Vec<(NodeIndex, &Tab)> = Vec::new();
        let mut i: usize = 0;
        while i < nodes.len()
            invariant
                nodes@.len() == ns.len(),
                forall|j: int| 0 <= j < nodes@.len() ==> *nodes@[j] == ns[j],
                i <= ns.len(),
                out@.len() == indexed_tabs_upto(ns, i as int).len(),
                forall|j: int|
                    0 <= j < out@.len() ==> out@[j].0 == indexed_tabs_upto(ns, i as int)[j].0 && *out@[j].1
                        == indexed_tabs_upto(ns, i as int)[j].1,
            decreases ns.len() - i,
        {
            let ghost prev = indexed_tabs_upto(ns, i as int);
            let ghost next = indexed_tabs_upto(ns, i as int + 1);
            proof {
                assert(next == prev + ns[i as int].tab_seq().map_values(|t: Tab| (NodeIndex(i), t)));
            }
            match nodes[i].tabs() {
                Some(tabs) => {
                    let mut k: usize = 0;
                    while k < tabs.len()
                        invariant
                            tabs@ == ns[i as int].tab_seq(),
                            next == prev + ns[i as int].tab_seq().map_values(|t: Tab| (NodeIndex(i), t)),
                            k <= tabs@.len(),
                            out@.len() == prev.len() + k,
                            forall|j: int|
                                0 <= j < out@.len() ==> out@[j].0 == next[j].0 && *out@[j].1 == next[j].1,
                        decreases tabs@.len() - k,
                    {
                        out.push((NodeIndex(i), &tabs[k]));
                        k = k + 1;
                    }
                },
                None => {},
            }
            proof {
                assert(out@.len() == next.len());
            }
            i = i + 1;
        }
        out
    }

    /// `new` is this surface with every tab mapped by `function` (see [`Node::mapped_by`]):
    /// the same kind of surface, window state and tree layout.
    pub open spec fn mapped_by<NewTab, F: Fn(&Tab) -> NewTab>(&self, function: F, new: Surface<NewTab>) -> bool {
        &&& (*self is Empty <==> new is Empty)
        &&& (*self is Main <==> new is Main)
        &&& (*self matches Surface::Window(_, s) ==> new matches Surface::Window(_, s2) && s2 == s)
        &&& !(*self is Empty) ==> {
            &&& new.tree().nodes().len() == self.tree().nodes().len()
            &&& forall|q: int|
                0 <= q < self.tree().nodes().len() ==> self.tree().nodes()[q].mapped_by(
                    function,
                    #[trigger] new.tree().nodes()[q],
                )
            &&& new.tree().focus() == self.tree().focus()
            &&& self.tree().wf() ==> new.tree().wf()
        }
    }

    /// Returns a new surface where every tab is replaced by what `function` gives for it.
    pub fn map_tabs<NewTab, F: Fn(&Tab) -> NewTab>(&self, function: F) -> (r: Surface<NewTab>)
        requires
            forall|t: &Tab| #[trigger] function.requires((t,)),
        ensures
            self.mapped_by(function, r),
    {
        self.map_tabs_with(&function)
    }

    /// [`map_tabs`](Self::map_tabs) with a borrowed function.
    pub(crate) fn map_tabs_with<NewTab, F: Fn(&Tab) -> NewTab>(&self, function: &F) -> (r: Surface<NewTab>)
        requires
            forall|t: &Tab| #[trigger] function.requires((t,)),
        ensures
            self.mapped_by(*function, r),
    {
        match self {
            Surface::Empty => Surface::Empty,
            Surface::Main(tree) => Surface::Main(tree.map_tabs_with(function)),
            Surface::Window(tree, state) => Surface::Window(tree.map_tabs_with(function), *state),
        }
    }

    /// Returns a new surface whose tree has the tabs of this one mapped by `function`,
    /// leaving out those for which it gives `None`, as [`Tree::filter_map_tabs`] does;
    /// the same kind of surface with the same window state.
    pub fn filter_map_tabs<NewTab, F: Fn(&Tab) -> Option<NewTab>>(&self, function: F) -> (r: Surface<NewTab>)
        requires
            !(*self is Empty) ==> self.tree().wf(),
            forall|t: &Tab| #[trigger] function.requires((t,)),
        ensures
            *self is Empty ==> r is Empty,
            *self is Main ==> r is Main,
            *self matches Surface::Window(_, s) ==> r matches Surface::Window(_, s2) && s2 == s,
            !(*self is Empty) ==> {
                &&& r.tree().wf()
                &&& exists|mid: Seq<Node<NewTab>>|
                    #[trigger] filter_mapped_nodes(self.tree().nodes(), function, mid) && empties_cleared(
                        mid,
                        self.tree().focus(),
                        r.tree().nodes(),
                        r.tree().focus(),
                        self.tree().nodes().len() as nat,
                    )
                &&& first_empty_leaf(r.tree().nodes(), 0) == r.tree().nodes().len()
            },
    {
        match self {
            Surface::Empty => Surface::Empty,
            Surface::Main(tree) => Surface::Main(tree.filter_map_tabs(function)),
            Surface::Window(tree, state) => Surface::Window(tree.filter_map_tabs(function), *state),
        }
    }

    /// Removes all tabs of this surface's tree for which `predicate` returns `false`,
    /// as [`Tree::retain_tabs`] does; an empty surface is left as it is.
    pub fn retain_tabs<F: Fn(&Tab) -> bool>(&mut self, predicate: F)
        requires
            !(*old(self) is Empty) ==> old(self).tree().wf(),
            forall|t: &Tab| #[trigger] predicate.requires((t,)),
        ensures
            *old(self) is Empty ==> *final(self) == *old(self),
            !(*old(self) is Empty) ==> {
                &&& *final(self) == old(self).with_tree(final(self).tree())
                &&& final(self).tree().wf()
                &&& exists|mid: Seq<Node<Tab>>|
                    #[trigger] retained_nodes(old(self).tree().nodes(), predicate, mid) && empties_cleared(
                        mid,
                        old(self).tree().focus(),
                        final(self).tree().nodes(),
                        final(self).tree().focus(),
                        old(self).tree().nodes().len() as nat,
                    )
                &&& first_empty_leaf(final(self).tree().nodes(), 0) == final(self).tree().nodes().len()
            },
    {
        match self {
            Surface::Empty => {},
            Surface::Main(tree) => tree.retain_tabs(predicate),
            Surface::Window(tree, _) => tree.retain_tabs(predicate),
        }
    }

    /// Is this surface [`Empty`](Surface::Empty) (in practice, a removed window)?
    pub fn is_empty(&self) -> (r: bool)
        ensures
            r == (self is Empty),
    {
        match self {
            Surface::Empty => true,
            _ => false,
        }
    }

    /// Get access to the node tree of this surface.
    pub fn node_tree(&self) -> (r: Option<&Tree<Tab>>)
        ensures
            self is Empty ==> r is None,
            !(self is Empty) ==> r == Some(&self.tree()),
    {
        match self {
            Surface::Empty => None,
            Surface::Main(tree) => Some(tree),
            Surface::Window(tree, _) => Some(tree),
        }
    }

    /// Get mutable access to the node tree of this surface.
    pub fn node_tree_mut(&mut self) -> (r: Option<&mut Tree<Tab>>)
        ensures
            *old(self) is Empty ==> r is None && *final(self) == *old(self),
            !(*old(self) is Empty) ==> (r matches Some(t) && *t == old(self).tree()
                && *final(self) == old(self).with_tree(*final(t))),
    {
        match self {
            Surface::Empty => None,
            Surface::Main(tree) => Some(tree),
            Surface::Window(tree, _) => Some(tree),
        }
    }
}

impl<Tab: Clone> Surface<Tab> {
    /// Returns a new surface whose tree holds clones of the tabs of this one for which
    /// `predicate` holds, as [`Tree::filter_tabs`] does; the same kind of surface with
    /// the same window state.
    pub fn filter_tabs<F: Fn(&Tab) -> bool>(&self, predicate: F) -> (r: Surface<Tab>)
        requires
            !(*self is Empty) ==> self.tree().wf(),
            forall|t: &Tab| #[trigger] predicate.requires((t,)),
        ensures
            *self is Empty ==> r is Empty,
            *self is Main ==> r is Main,
            *self matches Surface::Window(_, s) ==> r matches Surface::Window(_, s2) && s2 == s,
            !(*self is Empty) ==> {
                &&& r.tree().wf()
                &&& exists|mid: Seq<Node<Tab>>|
                    #[trigger] filtered_nodes(self.tree().nodes(), predicate, mid) && empties_cleared(
                        mid,
                        self.tree().focus(),
                        r.tree().nodes(),
                        r.tree().focus(),
                        self.tree().nodes().len() as nat,
                    )
                &&& first_empty_leaf(r.tree().nodes(), 0) == r.tree().nodes().len()
            },
    {
        match self {
            Surface::Empty => Surface::Empty,
            Surface::Main(tree) => Surface::Main(tree.filter_tabs(predicate)),
            Surface::Window(tree, state) => Surface::Window(tree.filter_tabs(predicate), *state),
        }
    }
}

} // verus!
