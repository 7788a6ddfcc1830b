//! Intermediate representation: what a compiled patch's routing turns into.
//!
//! The timed parts of the representation (clips, automation curves) are
//! built around this by the caller; the routing carries over one for one.

use vstd::prelude::*;
use crate::patch::{Edge, Node, Patch};
use vstd::string::StringExecFns;

verus! {

/// An edge in the compiled patch graph.
#[derive(Debug, Clone, Copy, PartialEq, Eq, Structural)]
pub struct IrEdge {
    pub from_node: usize,
    pub from_port: usize,
    pub to_node: usize,
    pub to_port: usize,
}

/// The representation of a patch edge.
pub open spec fn ir_edge_of(e: Edge) -> IrEdge {
    IrEdge { from_node: e.from_node, from_port: e.from_port, to_node: e.to_node, to_port: e.to_port }
}

/// Compile the edges of a patch, one IR edge per patch edge, in order.
pub fn compile_edges(patch: &Patch) -> (r: Vec<IrEdge>)
    ensures
        r.len() == patch.edge_seq().len(),
        forall|i: int| 0 <= i < r.len() ==> #[trigger] r@[i] == ir_edge_of(patch.edge_seq()[i]),
{
    let edges = patch.edges();
    let mut r: Vec<IrEdge> = Vec::new();
    let mut i: usize = 0;
    while i < edges.len()
        invariant
            edges@ == patch.edge_seq(),
            0 <= i <= edges.len(),
            r.len() == i,
            forall|k: int| 0 <= k < i ==> #[trigger] r@[k] == ir_edge_of(edges@[k]),
        decreases edges.len() - i,
    {
        let e = edges[i];
        r.push(IrEdge { from_node: e.from_node, from_port: e.from_port, to_node: e.to_node, to_port: e.to_port });
        i += 1;
    }
    r
}

/// The routing shape of a compiled node: its kind, with its port count where
/// the kind has one.
#[derive(Debug, Clone, Copy, PartialEq, Eq, Structural)]
pub enum IrNodeShape {
    Source,
    Pattern,
    Effect,
    Chain,
    Mixer { channels: usize },
    Split { outputs: usize },
    Merge { inputs: usize },
}

/// A compiled node without its timed payload: its id, shape and label.
#[derive(Debug, Clone)]
pub struct IrNodeFrame {
    pub id: usize,
    pub shape: IrNodeShape,
    pub label: String,
}

/// The shape a patch node compiles to.
pub open spec fn shape_of(n: Node) -> IrNodeShape {
    match n {
        Node::SourceNode { .. } => IrNodeShape::Source,
        Node::PatternNode { .. } => IrNodeShape::Pattern,
        Node::EffectNode { .. } => IrNodeShape::Effect,
        Node::ChainNode { .. } => IrNodeShape::Chain,
        Node::MixerNode { channels, .. } => IrNodeShape::Mixer { channels },
        Node::SplitNode { outputs, .. } => IrNodeShape::Split { outputs },
        Node::MergeNode { inputs, .. } => IrNodeShape::Merge { inputs },
    }
}

fn node_shape(n: &Node) -> (r: IrNodeShape)
    ensures
        r == shape_of(*n),
{
    match n {
        Node::SourceNode { .. } => IrNodeShape::Source,
        Node::PatternNode { .. } => IrNodeShape::Pattern,
        Node::EffectNode { .. } => IrNodeShape::Effect,
        Node::ChainNode { .. } => IrNodeShape::Chain,
        Node::MixerNode { channels, .. } => IrNodeShape::Mixer { channels: *channels },
        Node::SplitNode { outputs, .. } => IrNodeShape::Split { outputs: *outputs },
        Node::MergeNode { inputs, .. } => IrNodeShape::Merge { inputs: *inputs },
    }
}

/// Compile the nodes of a patch without their timed payloads: node `i`
/// becomes a frame with id `i`, the node's shape and its label, in order.
pub fn compile_node_frames(patch: &Patch) -> (r: Vec<IrNodeFrame>)
    ensures
        r.len() == patch.node_seq().len(),
        forall|i: int| 0 <= i < r.len() ==> {
            &&& (#[trigger] r@[i]).id == i
            &&& r@[i].shape == shape_of(patch.node_seq()[i])
            &&& r@[i].label@ == patch.node_seq()[i].label_view()
        },
{
    let nodes = patch.nodes();
    let mut r: Vec<IrNodeFrame> = Vec::new();
    let mut i: usize = 0;
    while i < nodes.len()
        invariant
            nodes@ == patch.node_seq(),
            0 <= i <= nodes.len(),
            r.len() == i,
            forall|k: int| 0 <= k < i ==> {
                &&& (#[trigger] r@[k]).id == k
                &&& r@[k].shape == shape_of(nodes@[k])
                &&& r@[k].label@ == nodes@[k].label_view()
            },
        decreases nodes.len() - i,
    {
        let n = &nodes[i];
        let frame = IrNodeFrame { id: i, shape: node_shape(n), label: String::from_str(n.label()) };
        r.push(frame);
        i += 1;
    }
    r
}

} // verus!
