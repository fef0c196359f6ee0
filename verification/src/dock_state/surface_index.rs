use vstd::prelude::*;
use vstd::std_specs::convert::FromSpecImpl;

verus! {

/// Wrapper around indices to the collection of surfaces inside a [`DockState`](crate::DockState).
#[derive(Clone, Copy, Debug, PartialEq, Eq, Structural, Hash)]
pub struct SurfaceIndex(pub usize);

impl From<usize> for SurfaceIndex {
    fn from(index: usize) -> (r: SurfaceIndex)
        ensures
            r.0 == index,
    {
        SurfaceIndex(index)
    }
}

impl FromSpecImpl<usize> for SurfaceIndex {
    open spec fn obeys_from_spec() -> bool {
        true
    }

    open spec fn from_spec(v: usize) -> SurfaceIndex {
        SurfaceIndex(v)
    }
}

impl SurfaceIndex {
    /// Returns the index of the main surface.
    pub fn main() -> (r: Self)
        ensures
            r.0 == 0,
    {
        Self(0)
    }

    /// Compares this surface index with [`SurfaceIndex::main`].
    pub fn is_main(self) -> (r: bool)
        ensures
            r == (self.0 == 0),
    {
        self.0 == 0
    }
}

} // verus!
