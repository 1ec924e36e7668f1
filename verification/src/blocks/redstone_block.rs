//! Redstone block: a source that puts out the full signal at all times.

use vstd::prelude::*;

verus! {

/// A redstone block as it is found in the voxel world.
#[derive(Copy, Clone, Debug, PartialEq, Eq, Structural)]
pub struct CRedstoneBlock {
    /// The node of this block in the graph, once it has one.
    pub node: Option<u32>,
}

impl Default for CRedstoneBlock {
    fn default() -> (r: CRedstoneBlock)
        ensures
            r.node is None,
    {
        CRedstoneBlock { node: None }
    }
}

} // verus!
