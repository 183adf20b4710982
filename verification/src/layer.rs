use vstd::prelude::*;

verus! {

use crate::node_heap::NodeHandle;

/// One child that a layer offers for a node: the child node, what reaching
/// it costs, and a description of the step for the path, if any.
pub struct LayerResult {
    pub child: NodeHandle,
    pub layer_cost: u32,
    pub layer_path: Option<String>,
}

} // verus!
