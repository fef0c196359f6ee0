use vstd::prelude::*;
use vstd::std_specs::convert::FromSpecImpl;

verus! {

/// Wrapper around indices to the collection of windows.
#[derive(Clone, Copy, Debug, PartialEq, Eq, Structural, Hash)]
pub struct WindowIndex(pub usize);

impl From<usize> for WindowIndex {
    fn from(index: usize) -> (r: WindowIndex)
        ensures
            r.0 == index,
    {
        WindowIndex(index)
    }
}

impl FromSpecImpl<usize> for WindowIndex {
    open spec fn obeys_from_spec() -> bool {
        true
    }

    open spec fn from_spec(v: usize) -> WindowIndex {
        WindowIndex(v)
    }
}

} // verus!
