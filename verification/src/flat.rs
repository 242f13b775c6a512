//! Path nodes on layered navigation meshes.

use vstd::prelude::*;

use crate::layer::LayerId;

verus! {

/// A node of a path from source to sink: a mesh element together with the
/// layer it is visited on.
#[derive(Clone, Copy, Debug, PartialEq, Eq, PartialOrd, Ord, Hash)]
pub struct Node<T> {
    pub fixed: T,
    pub layer: LayerId,
}

} // verus!
