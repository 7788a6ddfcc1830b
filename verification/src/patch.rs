//! Patch — the routing diagram.
//!
//! A patch is a directed graph whose nodes are processing stages and whose
//! edges carry signal between typed ports. Two patches compose in series or
//! in parallel; validation reports every edge that cannot carry signal.
//!
//! This module holds the topology: node kinds with their port counts and
//! labels, edges, validation and composition. The sound material a node
//! stands for (a sample, a pattern, an effect) is attached by the caller.

use vstd::prelude::*;
use vstd::string::StringExecFns;

verus! {

// ─── Ports ──────────────────────────────────────────────────────────────────

/// The type of data flowing through a port.
#[derive(Debug, Clone, Copy, PartialEq, Eq, Structural)]
pub enum PortType {
    /// Audio signal (continuous).
    Audio,
    /// Control signal (automation, LFO, etc.).
    Control,
    /// Discrete event stream (notes, triggers).
    Pattern,
}

/// A typed port on a node.
#[derive(Debug, Clone)]
pub struct Port {
    pub id: usize,
    pub port_type: PortType,
    pub label: String,
}

/// The text of a decimal digit.
pub open spec fn digit_text(d: int) -> Seq<char> {
    if d == 0 { "0"@ } else if d == 1 { "1"@ } else if d == 2 { "2"@ } else if d == 3 { "3"@ }
    else if d == 4 { "4"@ } else if d == 5 { "5"@ } else if d == 6 { "6"@ } else if d == 7 { "7"@ }
    else if d == 8 { "8"@ } else { "9"@ }
}

/// `n` written in decimal, without leading zeros.
pub open spec fn decimal(n: nat) -> Seq<char>
    decreases n,
{
    if n < 10 { digit_text(n as int) } else { decimal(n / 10) + digit_text((n % 10) as int) }
}

fn digit_str(d: u128) -> (r: &'static str)
    requires
        d < 10,
    ensures
        r@ == digit_text(d as int),
{
    match d {
        0 => "0", 1 => "1", 2 => "2", 3 => "3", 4 => "4",
        5 => "5", 6 => "6", 7 => "7", 8 => "8", _ => "9",
    }
}

/// Append `n` in decimal.
pub(crate) fn append_decimal(s: &mut String, n: u128)
    ensures
        final(s)@ == old(s)@ + decimal(n as nat),
    decreases n,
{
    let ghost s0 = s@;
    if n >= 10 {
        append_decimal(s, n / 10);
    }
    s.append(digit_str(n % 10));
    proof {
        if n >= 10 {
            assert(s@ =~= s0 + (decimal((n / 10) as nat) + digit_text((n % 10) as int)));
        }
    }
}

/// Port `p` has the given id, type and label.
pub open spec fn port_is(p: Port, id: int, t: PortType, label: Seq<char>) -> bool {
    &&& p.id == id
    &&& p.port_type == t
    &&& p.label@ == label
}

/// `count` ports numbered from 0, each labelled with `prefix` and its number.
fn numbered_ports(count: usize, prefix: &str, t: PortType) -> (r: Vec<Port>)
    ensures
        r.len() == count,
        forall|i: int| 0 <= i < r.len() ==> port_is(#[trigger] r@[i], i, t, prefix@ + decimal(i as nat)),
{
    let mut r: Vec<Port> = Vec::new();
    let mut i: usize = 0;
    while i < count
        invariant
            0 <= i <= count,
            r.len() == i,
            forall|k: int| 0 <= k < r.len() ==> port_is(#[trigger] r@[k], k, t, prefix@ + decimal(k as nat)),
        decreases count - i,
    {
        let mut label = String::from_str(prefix);
        append_decimal(&mut label, i as u128);
        r.push(Port { id: i, port_type: t, label });
        i += 1;
    }
    r
}

/// A single port numbered 0.
fn single_port(label: &str, t: PortType) -> (r: Vec<Port>)
    ensures
        r.len() == 1,
        port_is(r@[0], 0, t, label@),
{
    let mut r: Vec<Port> = Vec::new();
    r.push(Port { id: 0, port_type: t, label: String::from_str(label) });
    r
}

// ─── Nodes ──────────────────────────────────────────────────────────────────

/// A processing stage in the patch graph.
#[derive(Debug, Clone)]
pub enum Node {
    /// A sound source (sample, synth, live input, resampled).
    SourceNode { label: String },
    /// A discrete pattern (rhythm, melody, etc.).
    PatternNode { label: String },
    /// An audio effect (reverb, delay, filter, etc.).
    EffectNode { label: String },
    /// An effect chain (multiple effects in series).
    ChainNode { label: String },
    /// A mixer: blends multiple inputs with gain control.
    MixerNode { channels: usize, label: String },
    /// Splits one signal into multiple outputs.
    SplitNode { outputs: usize, label: String },
    /// Merges multiple inputs into one output.
    MergeNode { inputs: usize, label: String },
}

impl Node {
    /// The node's label.
    pub open spec fn label_view(self) -> Seq<char> {
        match self {
            Node::SourceNode { label } => label@,
            Node::PatternNode { label } => label@,
            Node::EffectNode { label } => label@,
            Node::ChainNode { label } => label@,
            Node::MixerNode { label, .. } => label@,
            Node::SplitNode { label, .. } => label@,
            Node::MergeNode { label, .. } => label@,
        }
    }

    /// Number of input ports: none for generators, one per channel for mixers
    /// and merges, one otherwise.
    pub open spec fn input_count(self) -> nat {
        match self {
            Node::SourceNode { .. } => 0,
            Node::PatternNode { .. } => 0,
            Node::MixerNode { channels, .. } => channels as nat,
            Node::MergeNode { inputs, .. } => inputs as nat,
            _ => 1,
        }
    }

    /// Number of output ports: one per output for splits, one otherwise.
    pub open spec fn output_count(self) -> nat {
        match self {
            Node::SplitNode { outputs, .. } => outputs as nat,
            _ => 1,
        }
    }

    /// Type of every output port: pattern nodes emit events, all else audio.
    pub open spec fn output_kind(self) -> PortType {
        match self {
            Node::PatternNode { .. } => PortType::Pattern,
            _ => PortType::Audio,
        }
    }

    /// Label of input port `i`.
    pub open spec fn input_label(self, i: nat) -> Seq<char> {
        match self {
            Node::MixerNode { .. } => "in_"@ + decimal(i),
            Node::MergeNode { .. } => "in_"@ + decimal(i),
            _ => "in"@,
        }
    }

    /// Label of output port `i`.
    pub open spec fn output_label(self, i: nat) -> Seq<char> {
        match self {
            Node::PatternNode { .. } => "events"@,
            Node::SplitNode { .. } => "out_"@ + decimal(i),
            _ => "out"@,
        }
    }

    /// Get the node's label.
    pub fn label(&self) -> (r: &str)
        ensures
            r@ == self.label_view(),
    {
        match self {
            Node::SourceNode { label } => label.as_str(),
            Node::PatternNode { label } => label.as_str(),
            Node::EffectNode { label } => label.as_str(),
            Node::ChainNode { label } => label.as_str(),
            Node::MixerNode { label, .. } => label.as_str(),
            Node::SplitNode { label, .. } => label.as_str(),
            Node::MergeNode { label, .. } => label.as_str(),
        }
    }

    /// Input ports for this node type: all audio, numbered from 0.
    pub fn input_ports(&self) -> (r: Vec<Port>)
        ensures
            r.len() == self.input_count(),
            forall|i: int| 0 <= i < r.len() ==> port_is(#[trigger] r@[i], i, PortType::Audio, self.input_label(i as nat)),
    {
        match self {
            Node::SourceNode { .. } => Vec::new(),
            Node::PatternNode { .. } => Vec::new(),
            Node::EffectNode { .. } => single_port("in", PortType::Audio),
            Node::ChainNode { .. } => single_port("in", PortType::Audio),
            Node::MixerNode { channels, .. } => numbered_ports(*channels, "in_", PortType::Audio),
            Node::SplitNode { .. } => single_port("in", PortType::Audio),
            Node::MergeNode { inputs, .. } => numbered_ports(*inputs, "in_", PortType::Audio),
        }
    }

    /// Output ports for this node type, numbered from 0.
    pub fn output_ports(&self) -> (r: Vec<Port>)
        ensures
            r.len() == self.output_count(),
            forall|i: int| 0 <= i < r.len() ==> port_is(#[trigger] r@[i], i, self.output_kind(), self.output_label(i as nat)),
    {
        match self {
            Node::SourceNode { .. } => single_port("out", PortType::Audio),
            Node::PatternNode { .. } => single_port("events", PortType::Pattern),
            Node::EffectNode { .. } => single_port("out", PortType::Audio),
            Node::ChainNode { .. } => single_port("out", PortType::Audio),
            Node::MixerNode { .. } => single_port("out", PortType::Audio),
            Node::SplitNode { outputs, .. } => numbered_ports(*outputs, "out_", PortType::Audio),
            Node::MergeNode { .. } => single_port("out", PortType::Audio),
        }
    }

    fn inputs(&self) -> (r: usize)
        ensures
            r == self.input_count(),
    {
        match self {
            Node::SourceNode { .. } => 0,
            Node::PatternNode { .. } => 0,
            Node::MixerNode { channels, .. } => *channels,
            Node::MergeNode { inputs, .. } => *inputs,
            _ => 1,
        }
    }

    fn outputs(&self) -> (r: usize)
        ensures
            r == self.output_count(),
    {
        match self {
            Node::SplitNode { outputs, .. } => *outputs,
            _ => 1,
        }
    }

    fn output_type(&self) -> (r: PortType)
        ensures
            r == self.output_kind(),
    {
        match self {
            Node::PatternNode { .. } => PortType::Pattern,
            _ => PortType::Audio,
        }
    }
}

/// A copy of a node.
fn copy_node(n: &Node) -> (r: Node)
    ensures
        r == *n,
{
    match n {
        Node::SourceNode { label } => Node::SourceNode { label: label.clone() },
        Node::PatternNode { label } => Node::PatternNode { label: label.clone() },
        Node::EffectNode { label } => Node::EffectNode { label: label.clone() },
        Node::ChainNode { label } => Node::ChainNode { label: label.clone() },
        Node::MixerNode { channels, label } => Node::MixerNode { channels: *channels, label: label.clone() },
        Node::SplitNode { outputs, label } => Node::SplitNode { outputs: *outputs, label: label.clone() },
        Node::MergeNode { inputs, label } => Node::MergeNode { inputs: *inputs, label: label.clone() },
    }
}

// ─── Edges and errors ───────────────────────────────────────────────────────

/// A connection between two ports in the graph.
#[derive(Debug, Clone, Copy, PartialEq, Eq, Structural)]
pub struct Edge {
    pub from_node: usize,
    pub from_port: usize,
    pub to_node: usize,
    pub to_port: usize,
}

/// Errors that can occur when validating a patch.
#[derive(Debug, Clone, Copy, PartialEq, Eq, Structural)]
pub enum PatchError {
    /// An edge references a node that doesn't exist.
    DanglingNode { edge_index: usize, node_id: usize },
    /// An edge references a port that doesn't exist.
    DanglingPort { edge_index: usize, node_id: usize, port_id: usize },
    /// Connected ports have incompatible types.
    PortTypeMismatch { edge_index: usize, from_type: PortType, to_type: PortType },
    /// An edge creates a self-loop.
    SelfLoop { edge_index: usize, node_id: usize },
}

/// What is wrong with edge number `ei`, checked in this order: a self-loop,
/// a missing source node, a missing target node, a missing output port, a
/// missing input port, then unequal port types. `None` when nothing is.
pub open spec fn edge_error(nodes: Seq<Node>, e: Edge, ei: usize) -> Option<PatchError> {
    if e.from_node == e.to_node {
        Some(PatchError::SelfLoop { edge_index: ei, node_id: e.from_node })
    } else if e.from_node >= nodes.len() {
        Some(PatchError::DanglingNode { edge_index: ei, node_id: e.from_node })
    } else if e.to_node >= nodes.len() {
        Some(PatchError::DanglingNode { edge_index: ei, node_id: e.to_node })
    } else if e.from_port >= nodes[e.from_node as int].output_count() {
        Some(PatchError::DanglingPort { edge_index: ei, node_id: e.from_node, port_id: e.from_port })
    } else if e.to_port >= nodes[e.to_node as int].input_count() {
        Some(PatchError::DanglingPort { edge_index: ei, node_id: e.to_node, port_id: e.to_port })
    } else if nodes[e.from_node as int].output_kind() != PortType::Audio {
        Some(PatchError::PortTypeMismatch {
            edge_index: ei,
            from_type: nodes[e.from_node as int].output_kind(),
            to_type: PortType::Audio,
        })
    } else {
        None
    }
}

/// The errors of the edges, in edge order.
pub open spec fn patch_errors(nodes: Seq<Node>, edges: Seq<Edge>) -> Seq<PatchError>
    decreases edges.len(),
{
    if edges.len() == 0 {
        Seq::empty()
    } else {
        let prev = patch_errors(nodes, edges.drop_last());
        match edge_error(nodes, edges.last(), (edges.len() - 1) as usize) {
            Some(err) => prev.push(err),
            None => prev,
        }
    }
}

/// Every edge can carry signal.
pub open spec fn edges_ok(nodes: Seq<Node>, edges: Seq<Edge>) -> bool {
    forall|i: int| 0 <= i < edges.len() ==> (#[trigger] edge_error(nodes, edges[i], 0)) is None
}

/// Whether an edge is in error does not depend on its number.
proof fn lemma_edge_error_index(nodes: Seq<Node>, e: Edge, i: usize, j: usize)
    ensures
        edge_error(nodes, e, i) is None <==> edge_error(nodes, e, j) is None,
{
}

/// No errors are reported exactly when every edge can carry signal.
proof fn lemma_errors_empty(nodes: Seq<Node>, edges: Seq<Edge>)
    ensures
        patch_errors(nodes, edges).len() == 0 <==> edges_ok(nodes, edges),
    decreases edges.len(),
{
    if edges.len() > 0 {
        let pre = edges.drop_last();
        lemma_errors_empty(nodes, pre);
        lemma_patch_errors_len(nodes, pre);
        let last = (edges.len() - 1) as usize;
        lemma_edge_error_index(nodes, edges.last(), last, 0);
        if edges_ok(nodes, edges) {
            assert forall|i: int| 0 <= i < pre.len() implies (#[trigger] edge_error(nodes, pre[i], 0)) is None by {
                assert(pre[i] == edges[i]);
            }
            assert(edge_error(nodes, edges[edges.len() - 1], 0) is None);
        }
        if patch_errors(nodes, edges).len() == 0 {
            assert forall|i: int| 0 <= i < edges.len() implies (#[trigger] edge_error(nodes, edges[i], 0)) is None by {
                if i < pre.len() {
                    assert(pre[i] == edges[i]);
                }
            }
        }
    }
}

proof fn lemma_patch_errors_len(nodes: Seq<Node>, edges: Seq<Edge>)
    ensures
        patch_errors(nodes, edges).len() <= edges.len(),
    decreases edges.len(),
{
    if edges.len() > 0 {
        lemma_patch_errors_len(nodes, edges.drop_last());
    }
}

// ─── Patch ──────────────────────────────────────────────────────────────────

/// A routing diagram: the core compositional unit.
#[derive(Debug, Clone)]
pub struct Patch {
    nodes: Vec<Node>,
    edges: Vec<Edge>,
    label: String,
}

impl Patch {
    /// The nodes, in index order.
    pub closed spec fn node_seq(self) -> Seq<Node> {
        self.nodes@
    }

    /// The edges, in the order they were added.
    pub closed spec fn edge_seq(self) -> Seq<Edge> {
        self.edges@
    }

    /// The patch's label.
    pub closed spec fn label_view(self) -> Seq<char> {
        self.label@
    }

    /// Every edge can carry signal.
    pub open spec fn valid(self) -> bool {
        edges_ok(self.node_seq(), self.edge_seq())
    }

    /// Create an empty patch.
    pub fn new(label: &str) -> (p: Self)
        ensures
            p.node_seq() == Seq::<Node>::empty(),
            p.edge_seq() == Seq::<Edge>::empty(),
            p.label_view() == label@,
    {
        Patch { nodes: Vec::new(), edges: Vec::new(), label: String::from_str(label) }
    }

    /// Add a node. Returns its index.
    pub fn add_node(&mut self, node: Node) -> (id: usize)
        ensures
            id == old(self).node_seq().len(),
            final(self).node_seq() == old(self).node_seq().push(node),
            final(self).edge_seq() == old(self).edge_seq(),
            final(self).label_view() == old(self).label_view(),
    {
        let id = self.nodes.len();
        self.nodes.push(node);
        id
    }

    /// Add a source node labelled with the source's label. Returns its index.
    pub fn add_source(&mut self, label: &str) -> (id: usize)
        ensures
            id == old(self).node_seq().len(),
            final(self).node_seq().len() == old(self).node_seq().len() + 1,
            final(self).node_seq().drop_last() == old(self).node_seq(),
            final(self).node_seq().last() matches Node::SourceNode { label: l } && l@ == label@,
            final(self).edge_seq() == old(self).edge_seq(),
            final(self).label_view() == old(self).label_view(),
    {
        let r = self.add_node(Node::SourceNode { label: String::from_str(label) });
        proof {
            assert(self.node_seq().drop_last() =~= old(self).node_seq());
        }
        r
    }

    /// Add a pattern node. Returns its index.
    pub fn add_pattern(&mut self, label: &str) -> (id: usize)
        ensures
            id == old(self).node_seq().len(),
            final(self).node_seq().len() == old(self).node_seq().len() + 1,
            final(self).node_seq().drop_last() == old(self).node_seq(),
            final(self).node_seq().last() matches Node::PatternNode { label: l } && l@ == label@,
            final(self).edge_seq() == old(self).edge_seq(),
            final(self).label_view() == old(self).label_view(),
    {
        let r = self.add_node(Node::PatternNode { label: String::from_str(label) });
        proof {
            assert(self.node_seq().drop_last() =~= old(self).node_seq());
        }
        r
    }

    /// Add an effect node labelled with the effect's name. Returns its index.
    pub fn add_effect(&mut self, name: &str) -> (id: usize)
        ensures
            id == old(self).node_seq().len(),
            final(self).node_seq().len() == old(self).node_seq().len() + 1,
            final(self).node_seq().drop_last() == old(self).node_seq(),
            final(self).node_seq().last() matches Node::EffectNode { label: l } && l@ == name@,
            final(self).edge_seq() == old(self).edge_seq(),
            final(self).label_view() == old(self).label_view(),
    {
        let r = self.add_node(Node::EffectNode { label: String::from_str(name) });
        proof {
            assert(self.node_seq().drop_last() =~= old(self).node_seq());
        }
        r
    }

    /// Add an effect chain node. Returns its index.
    pub fn add_chain(&mut self, label: &str) -> (id: usize)
        ensures
            id == old(self).node_seq().len(),
            final(self).node_seq().len() == old(self).node_seq().len() + 1,
            final(self).node_seq().drop_last() == old(self).node_seq(),
            final(self).node_seq().last() matches Node::ChainNode { label: l } && l@ == label@,
            final(self).edge_seq() == old(self).edge_seq(),
            final(self).label_view() == old(self).label_view(),
    {
        let r = self.add_node(Node::ChainNode { label: String::from_str(label) });
        proof {
            assert(self.node_seq().drop_last() =~= old(self).node_seq());
        }
        r
    }

    /// Add a mixer node with `channels` inputs. Returns its index.
    pub fn add_mixer(&mut self, channels: usize, label: &str) -> (id: usize)
        ensures
            id == old(self).node_seq().len(),
            final(self).node_seq().len() == old(self).node_seq().len() + 1,
            final(self).node_seq().drop_last() == old(self).node_seq(),
            final(self).node_seq().last() matches Node::MixerNode { channels: c, label: l } && c == channels && l@ == label@,
            final(self).edge_seq() == old(self).edge_seq(),
            final(self).label_view() == old(self).label_view(),
    {
        let r = self.add_node(Node::MixerNode { channels, label: String::from_str(label) });
        proof {
            assert(self.node_seq().drop_last() =~= old(self).node_seq());
        }
        r
    }

    /// Add a split node labelled "split". Returns its index.
    pub fn add_split(&mut self, outputs: usize) -> (id: usize)
        ensures
            id == old(self).node_seq().len(),
            final(self).node_seq().len() == old(self).node_seq().len() + 1,
            final(self).node_seq().drop_last() == old(self).node_seq(),
            final(self).node_seq().last() matches Node::SplitNode { outputs: o, label: l } && o == outputs && l@ == "split"@,
            final(self).edge_seq() == old(self).edge_seq(),
            final(self).label_view() == old(self).label_view(),
    {
        let r = self.add_node(Node::SplitNode { outputs, label: String::from_str("split") });
        proof {
            assert(self.node_seq().drop_last() =~= old(self).node_seq());
        }
        r
    }

    /// Add a merge node labelled "merge". Returns its index.
    pub fn add_merge(&mut self, inputs: usize) -> (id: usize)
        ensures
            id == old(self).node_seq().len(),
            final(self).node_seq().len() == old(self).node_seq().len() + 1,
            final(self).node_seq().drop_last() == old(self).node_seq(),
            final(self).node_seq().last() matches Node::MergeNode { inputs: n, label: l } && n == inputs && l@ == "merge"@,
            final(self).edge_seq() == old(self).edge_seq(),
            final(self).label_view() == old(self).label_view(),
    {
        let r = self.add_node(Node::MergeNode { inputs, label: String::from_str("merge") });
        proof {
            assert(self.node_seq().drop_last() =~= old(self).node_seq());
        }
        r
    }

    /// Connect two nodes. Returns the edge index.
    pub fn connect(&mut self, from_node: usize, from_port: usize, to_node: usize, to_port: usize) -> (idx: usize)
        ensures
            idx == old(self).edge_seq().len(),
            final(self).edge_seq() == old(self).edge_seq().push(Edge { from_node, from_port, to_node, to_port }),
            final(self).node_seq() == old(self).node_seq(),
            final(self).label_view() == old(self).label_view(),
    {
        let idx = self.edges.len();
        self.edges.push(Edge { from_node, from_port, to_node, to_port });
        idx
    }

    pub fn label(&self) -> (r: &str)
        ensures
            r@ == self.label_view(),
    {
        self.label.as_str()
    }

    pub fn nodes(&self) -> (r: &[Node])
        ensures
            r@ == self.node_seq(),
    {
        self.nodes.as_slice()
    }

    pub fn edges(&self) -> (r: &[Edge])
        ensures
            r@ == self.edge_seq(),
    {
        self.edges.as_slice()
    }

    pub fn node_count(&self) -> (r: usize)
        ensures
            r == self.node_seq().len(),
    {
        self.nodes.len()
    }

    pub fn edge_count(&self) -> (r: usize)
        ensures
            r == self.edge_seq().len(),
    {
        self.edges.len()
    }

    pub fn get_node(&self, id: usize) -> (r: Option<&Node>)
        ensures
            id < self.node_seq().len() ==> r == Some(&self.node_seq()[id as int]),
            id >= self.node_seq().len() ==> r is None,
    {
        if id < self.nodes.len() {
            Some(&self.nodes[id])
        } else {
            None
        }
    }

    /// Validate the patch graph. Returns a list of errors (empty = valid):
    /// for each edge in order, its first problem, if it has one.
    pub fn validate(&self) -> (r: Vec<PatchError>)
        ensures
            r@ == patch_errors(self.node_seq(), self.edge_seq()),
    {
        let mut errors: Vec<PatchError> = Vec::new();
        let n = self.nodes.len();
        let mut ei: usize = 0;
        while ei < self.edges.len()
            invariant
                n == self.nodes.len(),
                0 <= ei <= self.edges.len(),
                errors@ == patch_errors(self.nodes@, self.edges@.take(ei as int)),
            decreases self.edges.len() - ei,
        {
            let edge = self.edges[ei];
            let err: Option<PatchError> = if edge.from_node == edge.to_node {
                Some(PatchError::SelfLoop { edge_index: ei, node_id: edge.from_node })
            } else if edge.from_node >= n {
                Some(PatchError::DanglingNode { edge_index: ei, node_id: edge.from_node })
            } else if edge.to_node >= n {
                Some(PatchError::DanglingNode { edge_index: ei, node_id: edge.to_node })
            } else if edge.from_port >= self.nodes[edge.from_node].outputs() {
                Some(PatchError::DanglingPort { edge_index: ei, node_id: edge.from_node, port_id: edge.from_port })
            } else if edge.to_port >= self.nodes[edge.to_node].inputs() {
                Some(PatchError::DanglingPort { edge_index: ei, node_id: edge.to_node, port_id: edge.to_port })
            } else {
                let from_type = self.nodes[edge.from_node].output_type();
                if from_type != PortType::Audio {
                    Some(PatchError::PortTypeMismatch { edge_index: ei, from_type, to_type: PortType::Audio })
                } else {
                    None
                }
            };
            assert(err == edge_error(self.nodes@, edge, ei));
            match err {
                Some(e) => errors.push(e),
                None => {},
            }
            proof {
                let t = self.edges@.take(ei + 1);
                assert(t.drop_last() =~= self.edges@.take(ei as int));
                assert(t.last() == edge);
            }
            ei += 1;
        }
        proof {
            assert(self.edges@.take(self.edges.len() as int) =~= self.edges@);
        }
        errors
    }

    /// Check if the patch is valid (no errors).
    pub fn is_valid(&self) -> (r: bool)
        ensures
            r == self.valid(),
    {
        let errors = self.validate();
        proof {
            lemma_errors_empty(self.node_seq(), self.edge_seq());
        }
        errors.len() == 0
    }
}


// ─── Composition ────────────────────────────────────────────────────────────

/// Edge `e` with both node indices moved up by `off`.
pub open spec fn shifted(e: Edge, off: nat) -> Edge {
    Edge {
        from_node: (e.from_node + off) as usize,
        from_port: e.from_port,
        to_node: (e.to_node + off) as usize,
        to_port: e.to_port,
    }
}

/// Some edge leaves node `i`.
pub open spec fn has_from(es: Seq<Edge>, i: int) -> bool {
    exists|k: int| 0 <= k < es.len() && (#[trigger] es[k]).from_node == i
}

/// Some edge enters node `i`.
pub open spec fn has_to(es: Seq<Edge>, i: int) -> bool {
    exists|k: int| 0 <= k < es.len() && (#[trigger] es[k]).to_node == i
}

/// The node has an audio output port.
pub open spec fn audio_out(n: Node) -> bool {
    n.output_count() > 0 && n.output_kind() == PortType::Audio
}

/// The node has an (audio) input port.
pub open spec fn audio_in(n: Node) -> bool {
    n.input_count() > 0
}

/// Nodes `lo..hi`, in order, that have an audio output and no outgoing edge.
pub open spec fn terminal_outputs(nodes: Seq<Node>, es: Seq<Edge>, lo: int, hi: int) -> Seq<usize>
    decreases hi - lo,
{
    if hi <= lo {
        Seq::empty()
    } else {
        let rest = terminal_outputs(nodes, es, lo, hi - 1);
        if audio_out(nodes[hi - 1]) && !has_from(es, hi - 1) { rest.push((hi - 1) as usize) } else { rest }
    }
}

/// Nodes `lo..hi`, in order, that have an audio input and no incoming edge.
pub open spec fn initial_inputs(nodes: Seq<Node>, es: Seq<Edge>, lo: int, hi: int) -> Seq<usize>
    decreases hi - lo,
{
    if hi <= lo {
        Seq::empty()
    } else {
        let rest = initial_inputs(nodes, es, lo, hi - 1);
        if audio_in(nodes[hi - 1]) && !has_to(es, hi - 1) { rest.push((hi - 1) as usize) } else { rest }
    }
}

/// The nodes of `a` followed by those of `b`.
pub open spec fn joint_nodes(a: Patch, b: Patch) -> Seq<Node> {
    a.node_seq() + b.node_seq()
}

/// The edges of `a` followed by those of `b`, moved past `a`'s nodes.
pub open spec fn joint_edges(a: Patch, b: Patch) -> Seq<Edge> {
    a.edge_seq() + b.edge_seq().map_values(|e: Edge| shifted(e, a.node_seq().len()))
}

/// `b`'s node indices stay within `usize` once moved past `a`'s nodes.
pub open spec fn composable(a: Patch, b: Patch) -> bool {
    &&& a.node_seq().len() + b.node_seq().len() < usize::MAX
    &&& forall|k: int| 0 <= k < b.edge_seq().len() ==>
        (#[trigger] b.edge_seq()[k]).from_node + a.node_seq().len() <= usize::MAX
        && b.edge_seq()[k].to_node + a.node_seq().len() <= usize::MAX
}

/// `r` is `a` then `b` in series: both node lists, both edge lists, and an
/// edge from each terminal audio output of `a` to an initial audio input of
/// `b`, paired in order until either list runs out.
pub open spec fn series_of(a: Patch, b: Patch, r: Patch) -> bool {
    let nodes = joint_nodes(a, b);
    let base = joint_edges(a, b);
    let outs = terminal_outputs(nodes, base, 0, a.node_seq().len() as int);
    let ins = initial_inputs(nodes, base, a.node_seq().len() as int, nodes.len() as int);
    let k = if outs.len() <= ins.len() { outs.len() } else { ins.len() };
    &&& r.node_seq() == nodes
    &&& r.edge_seq().len() == base.len() + k
    &&& r.edge_seq().take(base.len() as int) == base
    &&& forall|j: int| 0 <= j < k ==> #[trigger] r.edge_seq()[base.len() + j]
        == (Edge { from_node: outs[j], from_port: 0, to_node: ins[j], to_port: 0 })
}

/// `r` is `a` and `b` side by side: both node lists and edge lists; when
/// either has terminal audio outputs, a merge node with one input per such
/// output, fed by them in order (those of `a` first).
pub open spec fn parallel_of(a: Patch, b: Patch, r: Patch) -> bool {
    let nodes = joint_nodes(a, b);
    let base = joint_edges(a, b);
    let outs = terminal_outputs(nodes, base, 0, a.node_seq().len() as int)
        + terminal_outputs(nodes, base, a.node_seq().len() as int, nodes.len() as int);
    &&& outs.len() == 0 ==> r.node_seq() == nodes && r.edge_seq() == base
    &&& outs.len() > 0 ==> {
        &&& r.node_seq().len() == nodes.len() + 1
        &&& r.node_seq().take(nodes.len() as int) == nodes
        &&& r.node_seq()[nodes.len() as int] matches Node::MergeNode { inputs, label } && inputs == outs.len() && label@ == "merge"@
        &&& r.edge_seq().len() == base.len() + outs.len()
        &&& r.edge_seq().take(base.len() as int) == base
        &&& forall|j: int| 0 <= j < outs.len() ==> #[trigger] r.edge_seq()[base.len() + j]
            == (Edge { from_node: outs[j], from_port: 0, to_node: nodes.len() as usize, to_port: j as usize })
    }
}


/// The terminal outputs of `lo..hi` lie in that range, in increasing order,
/// and have audio outputs.
proof fn lemma_terminal_outputs(nodes: Seq<Node>, es: Seq<Edge>, lo: int, hi: int)
    requires
        0 <= lo,
        hi <= nodes.len() <= usize::MAX,
    ensures
        terminal_outputs(nodes, es, lo, hi).len() <= if hi <= lo { 0 } else { hi - lo },
        forall|k: int| 0 <= k < terminal_outputs(nodes, es, lo, hi).len() ==> {
            let x = #[trigger] terminal_outputs(nodes, es, lo, hi)[k];
            &&& lo <= x < hi
            &&& audio_out(nodes[x as int])
        },
    decreases hi - lo,
{
    if hi > lo {
        lemma_terminal_outputs(nodes, es, lo, hi - 1);
        let rest = terminal_outputs(nodes, es, lo, hi - 1);
        let all = terminal_outputs(nodes, es, lo, hi);
        assert forall|k: int| 0 <= k < all.len() implies {
            let x = #[trigger] all[k];
            &&& lo <= x < hi
            &&& audio_out(nodes[x as int])
        } by {
            if k < rest.len() {
                assert(all[k] == rest[k]);
            } else {
                assert(all[k] == (hi - 1) as usize);
            }
        }
    }
}

/// The initial inputs of `lo..hi` lie in that range and have audio inputs.
proof fn lemma_initial_inputs(nodes: Seq<Node>, es: Seq<Edge>, lo: int, hi: int)
    requires
        0 <= lo,
        hi <= nodes.len() <= usize::MAX,
    ensures
        initial_inputs(nodes, es, lo, hi).len() <= if hi <= lo { 0 } else { hi - lo },
        forall|k: int| 0 <= k < initial_inputs(nodes, es, lo, hi).len() ==> {
            let x = #[trigger] initial_inputs(nodes, es, lo, hi)[k];
            &&& lo <= x < hi
            &&& audio_in(nodes[x as int])
        },
    decreases hi - lo,
{
    if hi > lo {
        lemma_initial_inputs(nodes, es, lo, hi - 1);
        let rest = initial_inputs(nodes, es, lo, hi - 1);
        let all = initial_inputs(nodes, es, lo, hi);
        assert forall|k: int| 0 <= k < all.len() implies {
            let x = #[trigger] all[k];
            &&& lo <= x < hi
            &&& audio_in(nodes[x as int])
        } by {
            if k < rest.len() {
                assert(all[k] == rest[k]);
            } else {
                assert(all[k] == (hi - 1) as usize);
            }
        }
    }
}

fn any_from(es: &Vec<Edge>, i: usize) -> (r: bool)
    ensures
        r == has_from(es@, i as int),
{
    let mut k: usize = 0;
    while k < es.len()
        invariant
            0 <= k <= es.len(),
            forall|j: int| 0 <= j < k ==> (#[trigger] es@[j]).from_node != i,
        decreases es.len() - k,
    {
        if es[k].from_node == i {
            return true;
        }
        k += 1;
    }
    false
}

fn any_to(es: &Vec<Edge>, i: usize) -> (r: bool)
    ensures
        r == has_to(es@, i as int),
{
    let mut k: usize = 0;
    while k < es.len()
        invariant
            0 <= k <= es.len(),
            forall|j: int| 0 <= j < k ==> (#[trigger] es@[j]).to_node != i,
        decreases es.len() - k,
    {
        if es[k].to_node == i {
            return true;
        }
        k += 1;
    }
    false
}

/// Copies of the nodes of `a` then `b`, and the edges of `a` then `b` moved
/// past `a`'s nodes.
fn joint(a: &Patch, b: &Patch) -> (r: (Vec<Node>, Vec<Edge>))
    requires
        composable(*a, *b),
    ensures
        r.0@ == joint_nodes(*a, *b),
        r.1@ == joint_edges(*a, *b),
{
    let mut nodes: Vec<Node> = Vec::new();
    let mut i: usize = 0;
    while i < a.nodes.len()
        invariant
            0 <= i <= a.nodes.len(),
            nodes@ =~= a.nodes@.take(i as int),
        decreases a.nodes.len() - i,
    {
        nodes.push(copy_node(&a.nodes[i]));
        i += 1;
    }
    let mut j: usize = 0;
    while j < b.nodes.len()
        invariant
            0 <= j <= b.nodes.len(),
            nodes@ =~= a.nodes@ + b.nodes@.take(j as int),
        decreases b.nodes.len() - j,
    {
        nodes.push(copy_node(&b.nodes[j]));
        j += 1;
    }
    let off = a.nodes.len();
    let mut edges: Vec<Edge> = Vec::new();
    let mut k: usize = 0;
    while k < a.edges.len()
        invariant
            0 <= k <= a.edges.len(),
            edges@ =~= a.edges@.take(k as int),
        decreases a.edges.len() - k,
    {
        edges.push(a.edges[k]);
        k += 1;
    }
    let ghost moved = b.edges@.map_values(|e: Edge| shifted(e, off as nat));
    let mut m: usize = 0;
    while m < b.edges.len()
        invariant
            composable(*a, *b),
            off == a.nodes.len(),
            moved == b.edges@.map_values(|e: Edge| shifted(e, off as nat)),
            0 <= m <= b.edges.len(),
            edges@ =~= a.edges@ + moved.take(m as int),
        decreases b.edges.len() - m,
    {
        let e = b.edges[m];
        assert(b.edge_seq()[m as int] == e);
        edges.push(Edge { from_node: e.from_node + off, from_port: e.from_port, to_node: e.to_node + off, to_port: e.to_port });
        m += 1;
    }
    (nodes, edges)
}

/// Nodes `lo..hi` of `nodes` with an audio output and no edge leaving them.
fn find_terminal_outputs(nodes: &Vec<Node>, es: &Vec<Edge>, lo: usize, hi: usize) -> (r: Vec<usize>)
    requires
        lo <= hi <= nodes.len(),
    ensures
        r@ == terminal_outputs(nodes@, es@, lo as int, hi as int),
{
    let mut r: Vec<usize> = Vec::new();
    let mut i: usize = lo;
    while i < hi
        invariant
            lo <= i <= hi <= nodes.len(),
            r@ == terminal_outputs(nodes@, es@, lo as int, i as int),
        decreases hi - i,
    {
        let n = &nodes[i];
        if n.outputs() > 0 && n.output_type() == PortType::Audio && !any_from(es, i) {
            r.push(i);
        }
        i += 1;
    }
    r
}

/// Nodes `lo..hi` of `nodes` with an audio input and no edge entering them.
fn find_initial_inputs(nodes: &Vec<Node>, es: &Vec<Edge>, lo: usize, hi: usize) -> (r: Vec<usize>)
    requires
        lo <= hi <= nodes.len(),
    ensures
        r@ == initial_inputs(nodes@, es@, lo as int, hi as int),
{
    let mut r: Vec<usize> = Vec::new();
    let mut i: usize = lo;
    while i < hi
        invariant
            lo <= i <= hi <= nodes.len(),
            r@ == initial_inputs(nodes@, es@, lo as int, i as int),
        decreases hi - i,
    {
        if nodes[i].inputs() > 0 && !any_to(es, i) {
            r.push(i);
        }
        i += 1;
    }
    r
}

/// Connect patch A's outputs to patch B's inputs in series.
///
/// Creates a new patch containing all nodes from both patches, with edges
/// connecting A's terminal audio outputs to B's initial audio inputs in
/// order.
pub fn series(a: &Patch, b: &Patch, label: &str) -> (r: Patch)
    requires
        composable(*a, *b),
    ensures
        series_of(*a, *b, r),
        r.label_view() == label@,
{
    let (nodes, mut edges) = joint(a, b);
    let b_offset = a.nodes.len();
    let total = nodes.len();
    let outs = find_terminal_outputs(&nodes, &edges, 0, b_offset);
    let ins = find_initial_inputs(&nodes, &edges, b_offset, total);
    let ghost base = edges@;
    let k = if outs.len() <= ins.len() { outs.len() } else { ins.len() };
    let mut j: usize = 0;
    while j < k
        invariant
            k <= outs.len(),
            k <= ins.len(),
            0 <= j <= k,
            edges.len() == base.len() + j,
            edges@.take(base.len() as int) == base,
            forall|q: int| 0 <= q < j ==> #[trigger] edges@[base.len() + q]
                == (Edge { from_node: outs@[q], from_port: 0, to_node: ins@[q], to_port: 0 }),
        decreases k - j,
    {
        let ghost before = edges@;
        edges.push(Edge { from_node: outs[j], from_port: 0, to_node: ins[j], to_port: 0 });
        proof {
            assert(edges@.take(base.len() as int) =~= before.take(base.len() as int));
            assert forall|q: int| 0 <= q < j + 1 implies #[trigger] edges@[base.len() + q]
                == (Edge { from_node: outs@[q], from_port: 0, to_node: ins@[q], to_port: 0 }) by {
                if q < j {
                    assert(edges@[base.len() + q] == before[base.len() + q]);
                }
            }
        }
        j += 1;
    }
    Patch { nodes, edges, label: String::from_str(label) }
}

/// Run patches A and B in parallel, merge their outputs.
///
/// Creates a new patch with a merge node collecting both patches' terminal
/// audio outputs.
pub fn parallel(a: &Patch, b: &Patch, label: &str) -> (r: Patch)
    requires
        composable(*a, *b),
    ensures
        parallel_of(*a, *b, r),
        r.label_view() == label@,
{
    let (nodes, edges) = joint(a, b);
    let b_offset = a.nodes.len();
    let total = nodes.len();
    let a_outputs = find_terminal_outputs(&nodes, &edges, 0, b_offset);
    let b_outputs = find_terminal_outputs(&nodes, &edges, b_offset, total);
    let ghost outs = a_outputs@ + b_outputs@;
    proof {
        lemma_terminal_outputs(nodes@, edges@, 0, b_offset as int);
        lemma_terminal_outputs(nodes@, edges@, b_offset as int, total as int);
    }
    let mut result = Patch { nodes, edges, label: String::from_str(label) };
    let ghost base = result.edges@;
    let ghost joined = result.nodes@;
    let total_inputs = a_outputs.len() + b_outputs.len();
    if total_inputs > 0 {
        let merge_id = result.add_merge(total_inputs);
        let mut i: usize = 0;
        while i < total_inputs
            invariant
                total_inputs == outs.len(),
                outs == a_outputs@ + b_outputs@,
                merge_id == joined.len(),
                result.nodes@ == joined.push(result.nodes@.last()),
                result.nodes@.len() == joined.len() + 1,
                result.nodes@.last() matches Node::MergeNode { inputs, label } && inputs == outs.len() && label@ == "merge"@,
                result.label@ == label@,
                0 <= i <= total_inputs,
                result.edges.len() == base.len() + i,
                result.edges@.take(base.len() as int) == base,
                forall|q: int| 0 <= q < i ==> #[trigger] result.edges@[base.len() + q]
                    == (Edge { from_node: outs[q], from_port: 0, to_node: merge_id, to_port: q as usize }),
            decreases total_inputs - i,
        {
            let node_id = if i < a_outputs.len() { a_outputs[i] } else { b_outputs[i - a_outputs.len()] };
            assert(node_id == outs[i as int]);
            let ghost before = result.edges@;
            result.connect(node_id, 0, merge_id, i);
            proof {
                assert(result.edges@.take(base.len() as int) =~= before.take(base.len() as int));
                assert forall|q: int| 0 <= q < i + 1 implies #[trigger] result.edges@[base.len() + q]
                    == (Edge { from_node: outs[q], from_port: 0, to_node: merge_id, to_port: q as usize }) by {
                    if q < i {
                        assert(result.edges@[base.len() + q] == before[base.len() + q]);
                    }
                }
            }
            i += 1;
        }
        proof {
            assert(result.nodes@.take(joined.len() as int) =~= joined);
        }
    } else {
        proof {
            assert(outs.len() == 0);
        }
    }
    result
}

/// Add a feedback path within a patch: an edge from `from_node`'s first
/// output back to `to_node`'s first input. Cycles are left to the runtime.
pub fn feedback(patch: &mut Patch, from_node: usize, to_node: usize)
    ensures
        final(patch).edge_seq() == old(patch).edge_seq().push(Edge { from_node, from_port: 0, to_node, to_port: 0 }),
        final(patch).node_seq() == old(patch).node_seq(),
        final(patch).label_view() == old(patch).label_view(),
{
    patch.edges.push(Edge { from_node, from_port: 0, to_node, to_port: 0 });
}


/// An edge that is sound in `a` stays sound among `a`'s nodes followed by
/// `b`'s; an edge sound in `b` stays sound once moved past `a`'s nodes.
proof fn lemma_joint_edges_ok(a: Patch, b: Patch)
    requires
        a.valid(),
        b.valid(),
        composable(a, b),
    ensures
        edges_ok(joint_nodes(a, b), joint_edges(a, b)),
{
    let nodes = joint_nodes(a, b);
    let base = joint_edges(a, b);
    let na = a.node_seq().len();
    let ea = a.edge_seq().len();
    assert forall|i: int| 0 <= i < base.len() implies (#[trigger] edge_error(nodes, base[i], 0)) is None by {
        if i < ea {
            let e = a.edge_seq()[i];
            assert(base[i] == e);
            assert(edge_error(a.node_seq(), a.edge_seq()[i], 0) is None);
            assert(nodes[e.from_node as int] == a.node_seq()[e.from_node as int]);
            assert(nodes[e.to_node as int] == a.node_seq()[e.to_node as int]);
        } else {
            let e = b.edge_seq()[i - ea];
            assert(base[i] == shifted(e, na));
            assert(edge_error(b.node_seq(), b.edge_seq()[i - ea], 0) is None);
            assert(nodes[e.from_node + na] == b.node_seq()[e.from_node as int]);
            assert(nodes[e.to_node + na] == b.node_seq()[e.to_node as int]);
        }
    }
}

/// Edge `e` joins two different nodes of `ns`, leaves from one of its
/// source's output ports, enters one of its target's input ports, and its
/// source sends audio.
pub open spec fn sound_edge(ns: Seq<Node>, e: Edge) -> bool {
    &&& e.from_node != e.to_node
    &&& e.from_node < ns.len()
    &&& e.to_node < ns.len()
    &&& e.from_port < ns[e.from_node as int].output_count()
    &&& e.to_port < ns[e.to_node as int].input_count()
    &&& ns[e.from_node as int].output_kind() == PortType::Audio
}

/// Every error an edge raises appears in the patch's error list.
proof fn lemma_errors_contain(nodes: Seq<Node>, edges: Seq<Edge>, i: int)
    requires
        0 <= i < edges.len(),
    ensures
        edge_error(nodes, edges[i], i as usize) matches Some(x) ==> patch_errors(nodes, edges).contains(x),
    decreases edges.len(),
{
    let pre = edges.drop_last();
    if i < edges.len() - 1 {
        lemma_errors_contain(nodes, pre, i);
        assert(pre[i] == edges[i]);
        if let Some(x) = edge_error(nodes, edges[i], i as usize) {
            let k = choose|k: int| 0 <= k < patch_errors(nodes, pre).len() && patch_errors(nodes, pre)[k] == x;
            let all = patch_errors(nodes, edges);
            assert(all[k] == x);
        }
    } else {
        if let Some(x) = edge_error(nodes, edges[i], i as usize) {
            let all = patch_errors(nodes, edges);
            assert(all[all.len() - 1] == x);
        }
    }
}

/// The number of the edge an error is about.
pub open spec fn error_edge(x: PatchError) -> int {
    match x {
        PatchError::DanglingNode { edge_index, .. } => edge_index as int,
        PatchError::DanglingPort { edge_index, .. } => edge_index as int,
        PatchError::PortTypeMismatch { edge_index, .. } => edge_index as int,
        PatchError::SelfLoop { edge_index, .. } => edge_index as int,
    }
}

proof fn lemma_errors_shape(nodes: Seq<Node>, edges: Seq<Edge>)
    requires
        edges.len() <= usize::MAX,
    ensures
        forall|j: int| 0 <= j < patch_errors(nodes, edges).len() ==> {
            let x = #[trigger] patch_errors(nodes, edges)[j];
            &&& 0 <= error_edge(x) < edges.len()
            &&& edge_error(nodes, edges[error_edge(x)], error_edge(x) as usize) == Some(x)
        },
        forall|j: int, k: int| 0 <= j < k < patch_errors(nodes, edges).len() ==>
            error_edge(patch_errors(nodes, edges)[j]) < error_edge(patch_errors(nodes, edges)[k]),
    decreases edges.len(),
{
    if edges.len() > 0 {
        let pre = edges.drop_last();
        lemma_errors_shape(nodes, pre);
        let prev = patch_errors(nodes, pre);
        let all = patch_errors(nodes, edges);
        let last = (edges.len() - 1) as usize;
        assert forall|j: int| 0 <= j < all.len() implies {
            let x = #[trigger] all[j];
            &&& 0 <= error_edge(x) < edges.len()
            &&& edge_error(nodes, edges[error_edge(x)], error_edge(x) as usize) == Some(x)
        } by {
            if j < prev.len() {
                assert(all[j] == prev[j]);
                assert(pre[error_edge(prev[j])] == edges[error_edge(prev[j])]);
            } else {
                assert(error_edge(all[j]) == last);
            }
        }
        assert forall|j: int, k: int| 0 <= j < k < all.len() implies error_edge(all[j]) < error_edge(all[k]) by {
            assert(all[j] == prev[j]);
            if k < prev.len() {
                assert(all[k] == prev[k]);
            } else {
                assert(error_edge(all[k]) == last);
            }
        }
    }
}

/// Validation reports each unsound edge once, in edge order, and says what
/// is wrong with it: a self-loop first; then a missing node (the source
/// before the target); then a missing port (the source's output before the
/// target's input); then a source that does not send audio.
pub proof fn law_validate_reports(p: Patch)
    requires
        p.edge_seq().len() <= usize::MAX,
    ensures
        ({
            let ns = p.node_seq();
            let es = p.edge_seq();
            let errs = patch_errors(ns, es);
            &&& forall|j: int| 0 <= j < errs.len() ==> 0 <= error_edge(#[trigger] errs[j]) < es.len()
                && !sound_edge(ns, es[error_edge(errs[j])])
            &&& forall|j: int, k: int| 0 <= j < k < errs.len() ==>
                error_edge(#[trigger] errs[j]) < error_edge(#[trigger] errs[k])
            &&& forall|i: int| 0 <= i < es.len() && !sound_edge(ns, #[trigger] es[i]) ==>
                exists|j: int| 0 <= j < errs.len() && error_edge(errs[j]) == i
            &&& forall|i: int| 0 <= i < es.len() ==> {
                let e = #[trigger] es[i];
                &&& e.from_node == e.to_node ==> errs.contains(PatchError::SelfLoop { edge_index: i as usize, node_id: e.from_node })
                &&& e.from_node != e.to_node && e.from_node >= ns.len() ==>
                    errs.contains(PatchError::DanglingNode { edge_index: i as usize, node_id: e.from_node })
                &&& e.from_node != e.to_node && e.from_node < ns.len() && e.to_node >= ns.len() ==>
                    errs.contains(PatchError::DanglingNode { edge_index: i as usize, node_id: e.to_node })
                &&& e.from_node != e.to_node && e.from_node < ns.len() && e.to_node < ns.len()
                    && e.from_port < ns[e.from_node as int].output_count()
                    && e.to_port < ns[e.to_node as int].input_count()
                    && ns[e.from_node as int].output_kind() != PortType::Audio ==>
                    errs.contains(PatchError::PortTypeMismatch {
                        edge_index: i as usize,
                        from_type: ns[e.from_node as int].output_kind(),
                        to_type: PortType::Audio,
                    })
            }
        }),
{
    let ns = p.node_seq();
    let es = p.edge_seq();
    let errs = patch_errors(ns, es);
    law_validate_sound_edges(p);
    lemma_errors_shape(ns, es);
    assert forall|j: int| 0 <= j < errs.len() implies 0 <= error_edge(#[trigger] errs[j]) < es.len()
        && !sound_edge(ns, es[error_edge(errs[j])]) by {
        let i = error_edge(errs[j]);
        assert(edge_error(ns, es[i], i as usize) is Some);
    }
    assert forall|i: int| 0 <= i < es.len() && !sound_edge(ns, #[trigger] es[i]) implies
        exists|j: int| 0 <= j < errs.len() && error_edge(errs[j]) == i by {
        lemma_errors_contain(ns, es, i);
        let x = edge_error(ns, es[i], i as usize)->0;
        let j = choose|j: int| 0 <= j < errs.len() && errs[j] == x;
        assert(error_edge(errs[j]) == i);
    }
    assert forall|i: int| 0 <= i < es.len() implies ({
        let e = #[trigger] es[i];
        &&& e.from_node == e.to_node ==> errs.contains(PatchError::SelfLoop { edge_index: i as usize, node_id: e.from_node })
        &&& e.from_node != e.to_node && e.from_node >= ns.len() ==>
            errs.contains(PatchError::DanglingNode { edge_index: i as usize, node_id: e.from_node })
        &&& e.from_node != e.to_node && e.from_node < ns.len() && e.to_node >= ns.len() ==>
            errs.contains(PatchError::DanglingNode { edge_index: i as usize, node_id: e.to_node })
        &&& e.from_node != e.to_node && e.from_node < ns.len() && e.to_node < ns.len()
            && e.from_port < ns[e.from_node as int].output_count()
            && e.to_port < ns[e.to_node as int].input_count()
            && ns[e.from_node as int].output_kind() != PortType::Audio ==>
            errs.contains(PatchError::PortTypeMismatch {
                edge_index: i as usize,
                from_type: ns[e.from_node as int].output_kind(),
                to_type: PortType::Audio,
            })
    }) by {
        lemma_errors_contain(ns, es, i);
    }
}

/// Validation accepts exactly the sound edges. An edge raises no error if
/// and only if it joins two different existing nodes, leaves from one of its
/// source's output ports (numbered from 0), enters one of its target's input
/// ports (numbered from 0), and its source sends audio. A patch is valid
/// exactly when every edge is sound; an edge leaving from a port its source
/// does not have is reported as a dangling port of the source, and one
/// entering a port its target does not have as a dangling port of the target.
pub proof fn law_validate_sound_edges(p: Patch)
    ensures
        forall|i: int| 0 <= i < p.edge_seq().len() ==> (edge_error(p.node_seq(), #[trigger] p.edge_seq()[i], i as usize) is None
            <==> sound_edge(p.node_seq(), p.edge_seq()[i])),
        p.valid() <==> forall|i: int| 0 <= i < p.edge_seq().len() ==> sound_edge(p.node_seq(), #[trigger] p.edge_seq()[i]),
        p.valid() <==> patch_errors(p.node_seq(), p.edge_seq()).len() == 0,
        forall|i: int| 0 <= i < p.edge_seq().len() ==> {
            let e = #[trigger] p.edge_seq()[i];
            let ns = p.node_seq();
            e.from_node != e.to_node && e.from_node < ns.len() && e.to_node < ns.len()
                && e.from_port >= ns[e.from_node as int].output_count()
                ==> patch_errors(ns, p.edge_seq()).contains(
                    PatchError::DanglingPort { edge_index: i as usize, node_id: e.from_node, port_id: e.from_port })
        },
        forall|i: int| 0 <= i < p.edge_seq().len() ==> {
            let e = #[trigger] p.edge_seq()[i];
            let ns = p.node_seq();
            e.from_node != e.to_node && e.from_node < ns.len() && e.to_node < ns.len()
                && e.from_port < ns[e.from_node as int].output_count()
                && e.to_port >= ns[e.to_node as int].input_count()
                ==> patch_errors(ns, p.edge_seq()).contains(
                    PatchError::DanglingPort { edge_index: i as usize, node_id: e.to_node, port_id: e.to_port })
        },
{
    let ns = p.node_seq();
    let es = p.edge_seq();
    lemma_errors_empty(ns, es);
    assert forall|i: int| 0 <= i < es.len() implies ({
        let e = #[trigger] es[i];
        e.from_node != e.to_node && e.from_node < ns.len() && e.to_node < ns.len()
            && e.from_port >= ns[e.from_node as int].output_count()
            ==> patch_errors(ns, es).contains(
                PatchError::DanglingPort { edge_index: i as usize, node_id: e.from_node, port_id: e.from_port })
    }) by {
        lemma_errors_contain(ns, es, i);
    }
    assert forall|i: int| 0 <= i < es.len() implies ({
        let e = #[trigger] es[i];
        e.from_node != e.to_node && e.from_node < ns.len() && e.to_node < ns.len()
            && e.from_port < ns[e.from_node as int].output_count()
            && e.to_port >= ns[e.to_node as int].input_count()
            ==> patch_errors(ns, es).contains(
                PatchError::DanglingPort { edge_index: i as usize, node_id: e.to_node, port_id: e.to_port })
    }) by {
        lemma_errors_contain(ns, es, i);
    }
    if p.valid() {
        assert forall|i: int| 0 <= i < es.len() implies #[trigger] sound_edge(ns, es[i]) by {
            assert(edge_error(ns, es[i], 0) is None);
        }
    }
    if forall|i: int| 0 <= i < es.len() ==> #[trigger] sound_edge(ns, es[i]) {
        assert forall|i: int| 0 <= i < es.len() implies (#[trigger] edge_error(ns, es[i], 0)) is None by {
            assert(sound_edge(ns, es[i]));
        }
    }
}

/// The terminal outputs of `lo..hi` are exactly its nodes with audio output and no such edge, in strictly increasing order.
proof fn lemma_terminal_outputs_exact(nodes: Seq<Node>, es: Seq<Edge>, lo: int, hi: int)
    requires
        0 <= lo,
        hi <= nodes.len() <= usize::MAX,
    ensures
        forall|k: int| 0 <= k < terminal_outputs(nodes, es, lo, hi).len() ==> {
            let x = #[trigger] terminal_outputs(nodes, es, lo, hi)[k];
            &&& lo <= x < hi
            &&& audio_out(nodes[x as int])
            &&& !has_from(es, x as int)
        },
        forall|j: int, k: int| 0 <= j < k < terminal_outputs(nodes, es, lo, hi).len() ==>
            terminal_outputs(nodes, es, lo, hi)[j] < terminal_outputs(nodes, es, lo, hi)[k],
        forall|x: int| lo <= x < hi && #[trigger] audio_out(nodes[x]) && !has_from(es, x) ==>
            exists|j: int| 0 <= j < terminal_outputs(nodes, es, lo, hi).len() && terminal_outputs(nodes, es, lo, hi)[j] == x,
    decreases hi - lo,
{
    if hi > lo {
        lemma_terminal_outputs_exact(nodes, es, lo, hi - 1);
        let rest = terminal_outputs(nodes, es, lo, hi - 1);
        let all = terminal_outputs(nodes, es, lo, hi);
        assert forall|k: int| 0 <= k < all.len() implies {
            let x = #[trigger] all[k];
            &&& lo <= x < hi
            &&& audio_out(nodes[x as int])
            &&& !has_from(es, x as int)
        } by {
            if k < rest.len() {
                assert(all[k] == rest[k]);
            } else {
                assert(all[k] == (hi - 1) as usize);
            }
        }
        assert forall|j: int, k: int| 0 <= j < k < all.len() implies all[j] < all[k] by {
            assert(all[j] == rest[j]);
            if k < rest.len() {
                assert(all[k] == rest[k]);
            } else {
                assert(all[k] == (hi - 1) as usize);
                assert(rest[j] < hi - 1);
            }
        }
        assert forall|x: int| lo <= x < hi && #[trigger] audio_out(nodes[x]) && !has_from(es, x) implies
            exists|j: int| 0 <= j < all.len() && all[j] == x by {
            if x < hi - 1 {
                let j = choose|j: int| 0 <= j < rest.len() && rest[j] == x;
                assert(all[j] == rest[j]);
            } else {
                assert(all[all.len() - 1] == x);
            }
        }
    }
}

/// The initial inputs of `lo..hi` are exactly its nodes with audio input and no such edge, in strictly increasing order.
proof fn lemma_initial_inputs_exact(nodes: Seq<Node>, es: Seq<Edge>, lo: int, hi: int)
    requires
        0 <= lo,
        hi <= nodes.len() <= usize::MAX,
    ensures
        forall|k: int| 0 <= k < initial_inputs(nodes, es, lo, hi).len() ==> {
            let x = #[trigger] initial_inputs(nodes, es, lo, hi)[k];
            &&& lo <= x < hi
            &&& audio_in(nodes[x as int])
            &&& !has_to(es, x as int)
        },
        forall|j: int, k: int| 0 <= j < k < initial_inputs(nodes, es, lo, hi).len() ==>
            initial_inputs(nodes, es, lo, hi)[j] < initial_inputs(nodes, es, lo, hi)[k],
        forall|x: int| lo <= x < hi && #[trigger] audio_in(nodes[x]) && !has_to(es, x) ==>
            exists|j: int| 0 <= j < initial_inputs(nodes, es, lo, hi).len() && initial_inputs(nodes, es, lo, hi)[j] == x,
    decreases hi - lo,
{
    if hi > lo {
        lemma_initial_inputs_exact(nodes, es, lo, hi - 1);
        let rest = initial_inputs(nodes, es, lo, hi - 1);
        let all = initial_inputs(nodes, es, lo, hi);
        assert forall|k: int| 0 <= k < all.len() implies {
            let x = #[trigger] all[k];
            &&& lo <= x < hi
            &&& audio_in(nodes[x as int])
            &&& !has_to(es, x as int)
        } by {
            if k < rest.len() {
                assert(all[k] == rest[k]);
            } else {
                assert(all[k] == (hi - 1) as usize);
            }
        }
        assert forall|j: int, k: int| 0 <= j < k < all.len() implies all[j] < all[k] by {
            assert(all[j] == rest[j]);
            if k < rest.len() {
                assert(all[k] == rest[k]);
            } else {
                assert(all[k] == (hi - 1) as usize);
                assert(rest[j] < hi - 1);
            }
        }
        assert forall|x: int| lo <= x < hi && #[trigger] audio_in(nodes[x]) && !has_to(es, x) implies
            exists|j: int| 0 <= j < all.len() && all[j] == x by {
            if x < hi - 1 {
                let j = choose|j: int| 0 <= j < rest.len() && rest[j] == x;
                assert(all[j] == rest[j]);
            } else {
                assert(all[all.len() - 1] == x);
            }
        }
    }
}

/// An audio output of `a` (nodes `0..na` of `nodes`) that no edge of `base` leaves.
pub open spec fn open_output(nodes: Seq<Node>, base: Seq<Edge>, na: int, x: int) -> bool {
    &&& 0 <= x < na
    &&& audio_out(nodes[x])
    &&& !has_from(base, x)
}

/// An audio input of `b` (nodes `na..` of `nodes`) that no edge of `base` enters.
pub open spec fn open_input(nodes: Seq<Node>, base: Seq<Edge>, na: int, y: int) -> bool {
    &&& na <= y < nodes.len()
    &&& audio_in(nodes[y])
    &&& !has_to(base, y)
}

/// Series joins `a` to `b` as fully as it can, in order. Past the edges of
/// the two patches, each new edge runs from port 0 of an open audio output of
/// `a` to port 0 of an open audio input of `b`; new edges go in increasing
/// order at both ends (the j-th open output to the j-th open input); they use
/// the first open outputs and inputs, skipping none; and they stop only when
/// every open output leads somewhere or every open input is fed.
pub proof fn law_series_joins_in_order(a: Patch, b: Patch, r: Patch)
    requires
        composable(a, b),
        series_of(a, b, r),
    ensures
        ({
            let nodes = joint_nodes(a, b);
            let base = joint_edges(a, b);
            let na = a.node_seq().len() as int;
            let es = r.edge_seq();
            &&& r.node_seq() == nodes
            &&& es.len() >= base.len()
            &&& es.take(base.len() as int) == base
            &&& forall|i: int| base.len() <= i < es.len() ==> {
                &&& open_output(nodes, base, na, (#[trigger] es[i]).from_node as int)
                &&& open_input(nodes, base, na, es[i].to_node as int)
                &&& es[i].from_port == 0
                &&& es[i].to_port == 0
            }
            &&& forall|i: int, j: int| base.len() <= i < j < es.len() ==>
                (#[trigger] es[i]).from_node < (#[trigger] es[j]).from_node && es[i].to_node < es[j].to_node
            &&& forall|i: int, x: int| base.len() <= i < es.len() && 0 <= x < (#[trigger] es[i]).from_node
                && #[trigger] open_output(nodes, base, na, x) ==> has_from(es, x)
            &&& forall|i: int, y: int| base.len() <= i < es.len() && na <= y < (#[trigger] es[i]).to_node
                && #[trigger] open_input(nodes, base, na, y) ==> has_to(es, y)
            &&& (forall|x: int| #[trigger] open_output(nodes, base, na, x) ==> has_from(es, x))
                || (forall|y: int| #[trigger] open_input(nodes, base, na, y) ==> has_to(es, y))
        }),
{
    let nodes = joint_nodes(a, b);
    let base = joint_edges(a, b);
    let na = a.node_seq().len() as int;
    let es = r.edge_seq();
    let outs = terminal_outputs(nodes, base, 0, na);
    let ins = initial_inputs(nodes, base, na, nodes.len() as int);
    let k = if outs.len() <= ins.len() { outs.len() } else { ins.len() };
    lemma_terminal_outputs_exact(nodes, base, 0, na);
    lemma_initial_inputs_exact(nodes, base, na, nodes.len() as int);
    let bl = base.len() as int;
    assert forall|i: int| bl <= i < es.len() implies {
        &&& open_output(nodes, base, na, (#[trigger] es[i]).from_node as int)
        &&& open_input(nodes, base, na, es[i].to_node as int)
        &&& es[i].from_port == 0
        &&& es[i].to_port == 0
    } by {
        assert(es[bl + (i - bl)] == (Edge { from_node: outs[i - bl], from_port: 0, to_node: ins[i - bl], to_port: 0 }));
    }
    assert forall|i: int, j: int| bl <= i < j < es.len() implies
        (#[trigger] es[i]).from_node < (#[trigger] es[j]).from_node && es[i].to_node < es[j].to_node by {
        assert(es[bl + (i - bl)] == (Edge { from_node: outs[i - bl], from_port: 0, to_node: ins[i - bl], to_port: 0 }));
        assert(es[bl + (j - bl)] == (Edge { from_node: outs[j - bl], from_port: 0, to_node: ins[j - bl], to_port: 0 }));
    }
    assert forall|x: int| 0 <= x < outs.len() && 0 <= x < k implies has_from(es, outs[x] as int) by {
        assert(es[bl + x] == (Edge { from_node: outs[x], from_port: 0, to_node: ins[x], to_port: 0 }));
    }
    assert forall|x: int| 0 <= x < ins.len() && 0 <= x < k implies has_to(es, ins[x] as int) by {
        assert(es[bl + x] == (Edge { from_node: outs[x], from_port: 0, to_node: ins[x], to_port: 0 }));
    }
    assert forall|i: int, x: int| bl <= i < es.len() && 0 <= x < (#[trigger] es[i]).from_node
        && #[trigger] open_output(nodes, base, na, x) implies has_from(es, x) by {
        let q = i - bl;
        assert(es[bl + q] == (Edge { from_node: outs[q], from_port: 0, to_node: ins[q], to_port: 0 }));
        assert(audio_out(nodes[x]));
        let j = choose|j: int| 0 <= j < outs.len() && outs[j] == x;
        if j >= q {
            if j > q {
                assert(outs[q] < outs[j]);
            }
        }
        assert(j < q);
        assert(has_from(es, outs[j] as int));
    }
    assert forall|i: int, y: int| bl <= i < es.len() && na <= y < (#[trigger] es[i]).to_node
        && #[trigger] open_input(nodes, base, na, y) implies has_to(es, y) by {
        let q = i - bl;
        assert(es[bl + q] == (Edge { from_node: outs[q], from_port: 0, to_node: ins[q], to_port: 0 }));
        assert(audio_in(nodes[y]));
        let j = choose|j: int| 0 <= j < ins.len() && ins[j] == y;
        if j >= q {
            if j > q {
                assert(ins[q] < ins[j]);
            }
        }
        assert(j < q);
        assert(has_to(es, ins[j] as int));
    }
    if outs.len() <= ins.len() {
        assert forall|x: int| #[trigger] open_output(nodes, base, na, x) implies has_from(es, x) by {
            assert(audio_out(nodes[x]));
            let j = choose|j: int| 0 <= j < outs.len() && outs[j] == x;
            assert(has_from(es, outs[j] as int));
        }
    } else {
        assert forall|y: int| #[trigger] open_input(nodes, base, na, y) implies has_to(es, y) by {
            assert(audio_in(nodes[y]));
            let j = choose|j: int| 0 <= j < ins.len() && ins[j] == y;
            assert(has_to(es, ins[j] as int));
        }
    }
}

/// Composing two valid patches in series gives a valid patch: the joining
/// edges run from an audio output of `a` to an audio input of `b`.
pub proof fn law_series_valid(a: Patch, b: Patch, r: Patch)
    requires
        a.valid(),
        b.valid(),
        composable(a, b),
        series_of(a, b, r),
    ensures
        r.valid(),
{
    let nodes = joint_nodes(a, b);
    let base = joint_edges(a, b);
    let na = a.node_seq().len() as int;
    let outs = terminal_outputs(nodes, base, 0, na);
    let ins = initial_inputs(nodes, base, na, nodes.len() as int);
    lemma_joint_edges_ok(a, b);
    lemma_terminal_outputs(nodes, base, 0, na);
    lemma_initial_inputs(nodes, base, na, nodes.len() as int);
    assert forall|i: int| 0 <= i < r.edge_seq().len() implies (#[trigger] edge_error(r.node_seq(), r.edge_seq()[i], 0)) is None by {
        if i < base.len() {
            assert(r.edge_seq()[i] == r.edge_seq().take(base.len() as int)[i]);
            assert(edge_error(nodes, base[i], 0) is None);
        } else {
            let j = i - base.len();
            assert(r.edge_seq()[base.len() + j] == (Edge { from_node: outs[j], from_port: 0, to_node: ins[j], to_port: 0 }));
            assert(audio_out(nodes[outs[j] as int]));
            assert(audio_in(nodes[ins[j] as int]));
        }
    }
}

/// Running two valid patches in parallel gives a valid patch: each merge
/// edge runs from an audio output to its own input of the merge node.
pub proof fn law_parallel_valid(a: Patch, b: Patch, r: Patch)
    requires
        a.valid(),
        b.valid(),
        composable(a, b),
        parallel_of(a, b, r),
    ensures
        r.valid(),
{
    let nodes = joint_nodes(a, b);
    let base = joint_edges(a, b);
    let na = a.node_seq().len() as int;
    let oa = terminal_outputs(nodes, base, 0, na);
    let ob = terminal_outputs(nodes, base, na, nodes.len() as int);
    let outs = oa + ob;
    lemma_joint_edges_ok(a, b);
    lemma_terminal_outputs(nodes, base, 0, na);
    lemma_terminal_outputs(nodes, base, na, nodes.len() as int);
    if outs.len() > 0 {
        let rn = r.node_seq();
        assert forall|i: int| 0 <= i < r.edge_seq().len() implies (#[trigger] edge_error(rn, r.edge_seq()[i], 0)) is None by {
            if i < base.len() {
                let e = base[i];
                assert(r.edge_seq()[i] == r.edge_seq().take(base.len() as int)[i]);
                assert(edge_error(nodes, base[i], 0) is None);
                assert(rn[e.from_node as int] == rn.take(nodes.len() as int)[e.from_node as int]);
                assert(rn[e.to_node as int] == rn.take(nodes.len() as int)[e.to_node as int]);
            } else {
                let j = i - base.len();
                assert(r.edge_seq()[base.len() + j]
                    == (Edge { from_node: outs[j], from_port: 0, to_node: nodes.len() as usize, to_port: j as usize }));
                if j < oa.len() {
                    assert(outs[j] == oa[j]);
                } else {
                    assert(outs[j] == ob[j - oa.len()]);
                }
                assert(audio_out(nodes[outs[j] as int]));
                assert(rn[outs[j] as int] == rn.take(nodes.len() as int)[outs[j] as int]);
            }
        }
    }
}

} // verus!
