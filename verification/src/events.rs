//! The event model: the vocabulary of graph mutations and the per-event
//! outcome taxonomy, together with the mathematical views the contracts of
//! the state machine and the parsers are stated over.

use crate::strutil::str_eq;
use vstd::prelude::*;

verus! {

/// Node payload carried by node events: a display name, an open-ended
/// semantic tag (unknown tags are preserved verbatim), and a non-negative
/// hierarchy level.
#[derive(Debug, Clone)]
pub struct EventNodeInfo {
    pub name: String,
    pub node_type: Option<String>,
    pub level: u32,
}

/// Mathematical view of a node payload.
#[verifier::ext_equal]
pub struct NodeInfoV {
    pub name: Seq<char>,
    pub node_type: Option<Seq<char>>,
    pub level: u32,
}

impl View for EventNodeInfo {
    type V = NodeInfoV;

    open spec fn view(&self) -> NodeInfoV {
        NodeInfoV { name: self.name@, node_type: self.node_type.deep_view(), level: self.level }
    }
}

impl DeepView for EventNodeInfo {
    type V = NodeInfoV;

    open spec fn deep_view(&self) -> NodeInfoV {
        self.view()
    }
}

/// Payload of a rich edge: optional label, optional semantic kind
/// ("sync", "async", "return", "create" or "destroy"), and an optional
/// sequence-ordering number.
#[derive(Debug, Clone)]
pub struct EventEdgeInfo {
    pub label: Option<String>,
    pub edge_type: Option<String>,
    pub sequence: Option<u32>,
}

/// Mathematical view of a rich edge payload.
#[verifier::ext_equal]
pub struct EdgeInfoV {
    pub label: Option<Seq<char>>,
    pub edge_type: Option<Seq<char>>,
    pub sequence: Option<u32>,
}

impl View for EventEdgeInfo {
    type V = EdgeInfoV;

    open spec fn view(&self) -> EdgeInfoV {
        EdgeInfoV {
            label: self.label.deep_view(),
            edge_type: self.edge_type.deep_view(),
            sequence: self.sequence,
        }
    }
}

impl DeepView for EventEdgeInfo {
    type V = EdgeInfoV;

    open spec fn deep_view(&self) -> EdgeInfoV {
        self.view()
    }
}

/// Events that can modify the graph structure.
#[derive(Debug, Clone)]
pub enum GraphEvent {
    /// Add a new node under a caller-chosen string id.
    AddNode { id: String, info: EventNodeInfo },
    /// Replace the payload of an existing node.
    UpdateNode { id: String, info: EventNodeInfo },
    /// Remove a node and every edge incident to it.
    RemoveNode { id: String },
    /// Add a plain edge between two existing nodes.
    AddEdge { from: String, to: String },
    /// Add an edge carrying a rich payload between two existing nodes.
    AddRichEdge { from: String, to: String, info: EventEdgeInfo },
    /// Remove the edge between two existing nodes.
    RemoveEdge { from: String, to: String },
    /// Clear the entire graph.
    Clear,
    /// Start of a batch: subsequent events are queued until the batch ends.
    BatchStart,
    /// End of a batch: the queued events are applied in arrival order.
    BatchEnd,
}

/// Mathematical view of a graph event.
pub enum EventV {
    AddNode { id: Seq<char>, info: NodeInfoV },
    UpdateNode { id: Seq<char>, info: NodeInfoV },
    RemoveNode { id: Seq<char> },
    AddEdge { from: Seq<char>, to: Seq<char> },
    AddRichEdge { from: Seq<char>, to: Seq<char>, info: EdgeInfoV },
    RemoveEdge { from: Seq<char>, to: Seq<char> },
    Clear,
    BatchStart,
    BatchEnd,
}

impl View for GraphEvent {
    type V = EventV;

    open spec fn view(&self) -> EventV {
        match self {
            GraphEvent::AddNode { id, info } => EventV::AddNode { id: id@, info: info@ },
            GraphEvent::UpdateNode { id, info } => EventV::UpdateNode { id: id@, info: info@ },
            GraphEvent::RemoveNode { id } => EventV::RemoveNode { id: id@ },
            GraphEvent::AddEdge { from, to } => EventV::AddEdge { from: from@, to: to@ },
            GraphEvent::AddRichEdge { from, to, info } => EventV::AddRichEdge {
                from: from@,
                to: to@,
                info: info@,
            },
            GraphEvent::RemoveEdge { from, to } => EventV::RemoveEdge { from: from@, to: to@ },
            GraphEvent::Clear => EventV::Clear,
            GraphEvent::BatchStart => EventV::BatchStart,
            GraphEvent::BatchEnd => EventV::BatchEnd,
        }
    }
}

impl DeepView for GraphEvent {
    type V = EventV;

    open spec fn deep_view(&self) -> EventV {
        self.view()
    }
}

/// Whether an event could mutate or reference the node with the given id:
/// `Clear` affects every id, batch markers affect none, node events affect
/// their own id, and edge events affect both endpoints.
pub open spec fn affects_node_spec(e: EventV, node_id: Seq<char>) -> bool {
    match e {
        EventV::AddNode { id, .. } => id == node_id,
        EventV::UpdateNode { id, .. } => id == node_id,
        EventV::RemoveNode { id } => id == node_id,
        EventV::AddEdge { from, to } => from == node_id || to == node_id,
        EventV::AddRichEdge { from, to, .. } => from == node_id || to == node_id,
        EventV::RemoveEdge { from, to } => from == node_id || to == node_id,
        EventV::Clear => true,
        EventV::BatchStart => false,
        EventV::BatchEnd => false,
    }
}

impl GraphEvent {
    /// Advisory predicate: whether this event mutates or references the node
    /// with id `node_id`.
    pub fn affects_node(&self, node_id: &str) -> (r: bool)
        ensures
            r == affects_node_spec(self@, node_id@),
    {
        match self {
            GraphEvent::AddNode { id, .. } => str_eq(id.as_str(), node_id),
            GraphEvent::UpdateNode { id, .. } => str_eq(id.as_str(), node_id),
            GraphEvent::RemoveNode { id } => str_eq(id.as_str(), node_id),
            GraphEvent::AddEdge { from, to } => str_eq(from.as_str(), node_id) || str_eq(
                to.as_str(),
                node_id,
            ),
            GraphEvent::AddRichEdge { from, to, .. } => str_eq(from.as_str(), node_id) || str_eq(
                to.as_str(),
                node_id,
            ),
            GraphEvent::RemoveEdge { from, to } => str_eq(from.as_str(), node_id) || str_eq(
                to.as_str(),
                node_id,
            ),
            GraphEvent::Clear => true,
            GraphEvent::BatchStart => false,
            GraphEvent::BatchEnd => false,
        }
    }
}

/// Result of processing a graph event: rejections are ordinary outcomes, not
/// exceptions, and never abort the processing of later events.
#[derive(Debug, Clone, Copy, PartialEq, Eq, Structural)]
pub enum EventResult {
    /// The event was applied (or queued inside an open batch).
    Success,
    /// `AddNode` named an id that is already present.
    NodeExists,
    /// The named node (or an edge endpoint) is not present.
    NodeNotFound,
    /// `AddEdge`/`AddRichEdge` named an ordered pair that already has an edge.
    EdgeExists,
    /// `RemoveEdge` named an ordered pair with no edge.
    EdgeNotFound,
}

} // verus!
