use vstd::prelude::*;

verus! {

/// For use with the dock area when every tab shows itself: a tab viewer that asks
/// each tab for its title and contents.
#[derive(Debug, Clone, Copy, PartialEq, Eq, Structural)]
pub struct DynamicTabViewer {}

impl Default for DynamicTabViewer {
    fn default() -> (r: Self)
        ensures
            r == (DynamicTabViewer {}),
    {
        DynamicTabViewer {}
    }
}

} // verus!
