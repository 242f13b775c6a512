//! Identifiers of the discrete layers that a navigation mesh stacks.

use vstd::prelude::*;

verus! {

/// The identifier of a layer, ordered by its number.
#[derive(Clone, Copy, Debug, PartialEq, Eq, Structural, PartialOrd, Ord, Hash)]
pub struct LayerId(u32);

impl LayerId {
    /// The layer with the smallest number, 0.
    pub fn lowest() -> (l: LayerId)
        ensures
            l.id() == 0,
    {
        LayerId(0)
    }

    /// The layer with the largest number.
    pub fn highest() -> (l: LayerId)
        ensures
            l.id() == u32::MAX,
    {
        LayerId(u32::MAX)
    }

    /// The number of the layer.
    pub closed spec fn id(self) -> u32 {
        self.0
    }

    /// The layer numbered `x`.
    pub fn from_usize(x: usize) -> (l: LayerId)
        requires
            x <= u32::MAX,
        ensures
            l.id() == x,
    {
        LayerId(x as u32)
    }
}

impl From<LayerId> for usize {
    fn from(x: LayerId) -> (r: usize) {
        x.0 as usize
    }
}

impl vstd::std_specs::convert::FromSpecImpl<LayerId> for usize {
    open spec fn obeys_from_spec() -> bool {
        true
    }

    open spec fn from_spec(x: LayerId) -> usize {
        x.id() as usize
    }
}

} // verus!
