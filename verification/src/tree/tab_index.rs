use vstd::prelude::*;
use vstd::std_specs::convert::FromSpecImpl;

verus! {

/// Identifies a tab within a [`Node`](crate::Node).
#[derive(Clone, Copy, Debug, PartialEq, Eq, Structural, Hash, PartialOrd, Ord)]
pub struct TabIndex(pub usize);

impl From<usize> for TabIndex {
    fn from(index: usize) -> (r: TabIndex)
        ensures
            r.0 == index,
    {
        TabIndex(index)
    }
}

impl FromSpecImpl<usize> for TabIndex {
    open spec fn obeys_from_spec() -> bool {
        true
    }

    open spec fn from_spec(v: usize) -> TabIndex {
        TabIndex(v)
    }
}

} // verus!
