//! Identifiers of the nodes of a tree.

use vstd::prelude::*;

verus! {

/// The identifier of a node of a `Tree`: the key of its slot.
#[derive(Copy, Clone, Default, PartialEq, Eq, Hash, Structural, Debug)]
pub struct NodeId(pub usize);

impl From<usize> for NodeId {
    fn from(id: usize) -> (r: Self) {
        Self(id)
    }
}

impl vstd::std_specs::convert::FromSpecImpl<usize> for NodeId {
    open spec fn obeys_from_spec() -> bool {
        true
    }

    open spec fn from_spec(v: usize) -> NodeId {
        NodeId(v)
    }
}

impl From<NodeId> for usize {
    fn from(id: NodeId) -> (r: Self) {
        id.0
    }
}

impl vstd::std_specs::convert::FromSpecImpl<NodeId> for usize {
    open spec fn obeys_from_spec() -> bool {
        true
    }

    open spec fn from_spec(v: NodeId) -> usize {
        v.0
    }
}

/// Converting an integer to a `NodeId` and back gives the integer again, and
/// the other way round.
pub proof fn law_node_id_round_trip(id: usize, node: NodeId)
    ensures
        <usize as vstd::std_specs::convert::FromSpec<NodeId>>::from_spec(
            <NodeId as vstd::std_specs::convert::FromSpec<usize>>::from_spec(id),
        ) == id,
        <NodeId as vstd::std_specs::convert::FromSpec<usize>>::from_spec(
            <usize as vstd::std_specs::convert::FromSpec<NodeId>>::from_spec(node),
        ) == node,
{
}

} // verus!
