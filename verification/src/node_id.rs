use vstd::prelude::*;

verus! {

/// The identity of a node in the cluster.
#[derive(Debug, Hash, PartialEq, Eq, Structural, Copy, Clone)]
pub struct NodeId(pub u32);

} // verus!
