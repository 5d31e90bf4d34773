//! Mathematical model of the graph state machine.
//!
//! `StateModel` is the abstract state of a [`crate::graph_state::GraphState`],
//! and `step` is the transition function the executable `process_event` is
//! proved to refine. The laws of the state machine (batching equivalence,
//! deduplication, removal cascades) are proved here over the model, and
//! therefore hold of the executable code through its refinement contract.

use crate::events::{EdgeInfoV, EventResult, EventV, NodeInfoV};
use vstd::prelude::*;

verus! {

/// Abstract edge: endpoint ids plus the optional rich payload.
#[verifier::ext_equal]
pub struct EdgeV {
    pub from: Seq<char>,
    pub to: Seq<char>,
    pub info: Option<EdgeInfoV>,
}

/// Abstract state of the graph state machine: the node table in insertion
/// order (id and payload), the edge table in insertion order, and the batch
/// bookkeeping.
#[verifier::ext_equal]
pub struct StateModel {
    pub nodes: Seq<(Seq<char>, NodeInfoV)>,
    pub edges: Seq<EdgeV>,
    pub in_batch: bool,
    pub queue: Seq<EventV>,
}

/// The state of a freshly created state machine.
pub open spec fn init_model() -> StateModel {
    StateModel {
        nodes: Seq::empty(),
        edges: Seq::empty(),
        in_batch: false,
        queue: Seq::empty(),
    }
}

/// Index of the first node with the given id, or `nodes.len()` if absent.
pub open spec fn find_node(nodes: Seq<(Seq<char>, NodeInfoV)>, id: Seq<char>) -> int
    decreases nodes.len(),
{
    if nodes.len() == 0 {
        0
    } else if nodes[0].0 == id {
        0
    } else {
        1 + find_node(nodes.drop_first(), id)
    }
}

pub open spec fn has_node(nodes: Seq<(Seq<char>, NodeInfoV)>, id: Seq<char>) -> bool {
    find_node(nodes, id) < nodes.len()
}

/// The payload of the node with the given id.
pub open spec fn node_info_of(nodes: Seq<(Seq<char>, NodeInfoV)>, id: Seq<char>) -> NodeInfoV {
    nodes[find_node(nodes, id)].1
}

/// Index of the first edge with the given ordered endpoint pair, or
/// `edges.len()` if absent.
pub open spec fn find_edge(edges: Seq<EdgeV>, from: Seq<char>, to: Seq<char>) -> int
    decreases edges.len(),
{
    if edges.len() == 0 {
        0
    } else if edges[0].from == from && edges[0].to == to {
        0
    } else {
        1 + find_edge(edges.drop_first(), from, to)
    }
}

pub open spec fn has_edge(edges: Seq<EdgeV>, from: Seq<char>, to: Seq<char>) -> bool {
    find_edge(edges, from, to) < edges.len()
}

/// The edges that survive removal of the node with the given id: every edge
/// incident to it is dropped, the rest keep their order.
pub open spec fn remove_incident(edges: Seq<EdgeV>, id: Seq<char>) -> Seq<EdgeV>
    decreases edges.len(),
{
    if edges.len() == 0 {
        Seq::empty()
    } else {
        let rest = remove_incident(edges.drop_last(), id);
        if edges.last().from == id || edges.last().to == id {
            rest
        } else {
            rest.push(edges.last())
        }
    }
}

/// Immediate application of one event to the graph (no batch queuing).
pub open spec fn apply_now(m: StateModel, e: EventV) -> (StateModel, EventResult) {
    match e {
        EventV::AddNode { id, info } => if has_node(m.nodes, id) {
            (m, EventResult::NodeExists)
        } else {
            (StateModel { nodes: m.nodes.push((id, info)), ..m }, EventResult::Success)
        },
        EventV::UpdateNode { id, info } => if has_node(m.nodes, id) {
            (
                StateModel { nodes: m.nodes.update(find_node(m.nodes, id), (id, info)), ..m },
                EventResult::Success,
            )
        } else {
            (m, EventResult::NodeNotFound)
        },
        EventV::RemoveNode { id } => if has_node(m.nodes, id) {
            (
                StateModel {
                    nodes: m.nodes.remove(find_node(m.nodes, id)),
                    edges: remove_incident(m.edges, id),
                    ..m
                },
                EventResult::Success,
            )
        } else {
            (m, EventResult::NodeNotFound)
        },
        EventV::AddEdge { from, to } => add_edge_model(m, from, to, None),
        EventV::AddRichEdge { from, to, info } => add_edge_model(m, from, to, Some(info)),
        EventV::RemoveEdge { from, to } => if !has_node(m.nodes, from) || !has_node(
            m.nodes,
            to,
        ) {
            (m, EventResult::NodeNotFound)
        } else if has_edge(m.edges, from, to) {
            (
                StateModel { edges: m.edges.remove(find_edge(m.edges, from, to)), ..m },
                EventResult::Success,
            )
        } else {
            (m, EventResult::EdgeNotFound)
        },
        EventV::Clear => (
            StateModel { nodes: Seq::empty(), edges: Seq::empty(), ..m },
            EventResult::Success,
        ),
        EventV::BatchStart => (
            StateModel { in_batch: true, queue: Seq::empty(), ..m },
            EventResult::Success,
        ),
        EventV::BatchEnd => (m, EventResult::Success),
    }
}

/// Shared transition of `AddEdge` and `AddRichEdge`: both endpoints must be
/// present and the ordered pair must be new.
pub open spec fn add_edge_model(
    m: StateModel,
    from: Seq<char>,
    to: Seq<char>,
    info: Option<EdgeInfoV>,
) -> (StateModel, EventResult) {
    if !has_node(m.nodes, from) || !has_node(m.nodes, to) {
        (m, EventResult::NodeNotFound)
    } else if has_edge(m.edges, from, to) {
        (m, EventResult::EdgeExists)
    } else {
        (StateModel { edges: m.edges.push(EdgeV { from, to, info }), ..m }, EventResult::Success)
    }
}

/// One event transition without queue flushing: a `BatchEnd` merely closes
/// the batch. This is the transition applied to events drained from the
/// queue; the queue never holds a `BatchEnd`.
pub open spec fn step_plain(m: StateModel, e: EventV) -> (StateModel, EventResult) {
    if m.in_batch && !(e is BatchEnd) {
        (StateModel { queue: m.queue.push(e), ..m }, EventResult::Success)
    } else if e is BatchEnd {
        (StateModel { in_batch: false, queue: Seq::empty(), ..m }, EventResult::Success)
    } else {
        apply_now(m, e)
    }
}

/// Applies the queued events in arrival order, one at a time.
pub open spec fn drain(m: StateModel, pending: Seq<EventV>) -> (StateModel, Seq<EventResult>)
    decreases pending.len(),
{
    if pending.len() == 0 {
        (m, Seq::empty())
    } else {
        let (m1, r) = step_plain(m, pending[0]);
        let (m2, rest) = drain(m1, pending.drop_first());
        (m2, seq![r] + rest)
    }
}

/// The full transition of one event: while a batch is open every event but
/// `BatchEnd` is queued; `BatchEnd` closes the batch and then drains the
/// queue in arrival order.
pub open spec fn step(m: StateModel, e: EventV) -> (StateModel, EventResult) {
    if m.in_batch && !(e is BatchEnd) {
        (StateModel { queue: m.queue.push(e), ..m }, EventResult::Success)
    } else if e is BatchEnd {
        let m1 = StateModel { in_batch: false, queue: Seq::empty(), ..m };
        (drain(m1, m.queue).0, EventResult::Success)
    } else {
        apply_now(m, e)
    }
}

/// Folds `step` over an event sequence, collecting one outcome per event in
/// order.
pub open spec fn steps(m: StateModel, es: Seq<EventV>) -> (StateModel, Seq<EventResult>)
    decreases es.len(),
{
    if es.len() == 0 {
        (m, Seq::empty())
    } else {
        let (m1, r) = step(m, es[0]);
        let (m2, rest) = steps(m1, es.drop_first());
        (m2, seq![r] + rest)
    }
}

/// Well-formedness of the batch bookkeeping: the queue never holds a
/// `BatchEnd` (one is never queued), and outside a batch the queue is empty.
pub open spec fn queue_wf(q: Seq<EventV>) -> bool {
    forall|i: int| 0 <= i < q.len() ==> !(#[trigger] q[i] is BatchEnd)
}

pub open spec fn wf(m: StateModel) -> bool {
    &&& queue_wf(m.queue)
    &&& !m.in_batch ==> m.queue.len() == 0
}

/// Structural invariants of the graph itself: node ids are pairwise
/// distinct, ordered edge pairs are pairwise distinct, and every edge
/// endpoint refers to a present node.
pub open spec fn distinct_ids(nodes: Seq<(Seq<char>, NodeInfoV)>) -> bool {
    forall|i: int, j: int| 0 <= i < j < nodes.len() ==> nodes[i].0 != nodes[j].0
}

pub open spec fn distinct_edges(edges: Seq<EdgeV>) -> bool {
    forall|i: int, j: int|
        0 <= i < j < edges.len() ==> !(edges[i].from == edges[j].from && edges[i].to
            == edges[j].to)
}

pub open spec fn edges_closed(m: StateModel) -> bool {
    forall|i: int|
        0 <= i < m.edges.len() ==> has_node(m.nodes, #[trigger] m.edges[i].from) && has_node(
            m.nodes,
            m.edges[i].to,
        )
}

pub open spec fn graph_inv(m: StateModel) -> bool {
    distinct_ids(m.nodes) && distinct_edges(m.edges) && edges_closed(m)
}

// ---------------------------------------------------------------------------
// Basic facts about lookups
// ---------------------------------------------------------------------------

/// `find_node` returns either the position of the first entry with the id,
/// or the length.
pub proof fn lemma_find_node(nodes: Seq<(Seq<char>, NodeInfoV)>, id: Seq<char>)
    ensures
        0 <= find_node(nodes, id) <= nodes.len(),
        find_node(nodes, id) < nodes.len() ==> nodes[find_node(nodes, id)].0 == id,
        forall|j: int| 0 <= j < find_node(nodes, id) ==> nodes[j].0 != id,
    decreases nodes.len(),
{
    if nodes.len() > 0 && nodes[0].0 != id {
        lemma_find_node(nodes.drop_first(), id);
        assert forall|j: int| 0 <= j < find_node(nodes, id) implies nodes[j].0 != id by {
            if j > 0 {
                assert(nodes.drop_first()[j - 1] == nodes[j]);
            }
        }
    }
}

pub proof fn lemma_find_edge(edges: Seq<EdgeV>, from: Seq<char>, to: Seq<char>)
    ensures
        0 <= find_edge(edges, from, to) <= edges.len(),
        find_edge(edges, from, to) < edges.len() ==> edges[find_edge(edges, from, to)].from
            == from && edges[find_edge(edges, from, to)].to == to,
        forall|j: int|
            0 <= j < find_edge(edges, from, to) ==> !(#[trigger] edges[j].from == from
                && edges[j].to == to),
    decreases edges.len(),
{
    if edges.len() > 0 && !(edges[0].from == from && edges[0].to == to) {
        lemma_find_edge(edges.drop_first(), from, to);
        assert forall|j: int|
            0 <= j < find_edge(edges, from, to) implies !(edges[j].from == from && edges[j].to
            == to) by {
            if j > 0 {
                assert(edges.drop_first()[j - 1] == edges[j]);
            }
        }
    }
}

/// When the first `k` entries miss the id and entry `k` has it, `find_node`
/// returns `k`.
pub proof fn lemma_find_node_at(nodes: Seq<(Seq<char>, NodeInfoV)>, id: Seq<char>, k: int)
    requires
        0 <= k < nodes.len(),
        nodes[k].0 == id,
        forall|j: int| 0 <= j < k ==> nodes[j].0 != id,
    ensures
        find_node(nodes, id) == k,
    decreases k,
{
    if k > 0 {
        lemma_find_node_at(nodes.drop_first(), id, k - 1);
    }
}

pub proof fn lemma_find_node_none(nodes: Seq<(Seq<char>, NodeInfoV)>, id: Seq<char>)
    requires
        forall|j: int| 0 <= j < nodes.len() ==> nodes[j].0 != id,
    ensures
        find_node(nodes, id) == nodes.len(),
    decreases nodes.len(),
{
    if nodes.len() > 0 {
        lemma_find_node_none(nodes.drop_first(), id);
    }
}

pub proof fn lemma_find_edge_at(edges: Seq<EdgeV>, from: Seq<char>, to: Seq<char>, k: int)
    requires
        0 <= k < edges.len(),
        edges[k].from == from && edges[k].to == to,
        forall|j: int| 0 <= j < k ==> !(#[trigger] edges[j].from == from && edges[j].to == to),
    ensures
        find_edge(edges, from, to) == k,
    decreases k,
{
    if k > 0 {
        lemma_find_edge_at(edges.drop_first(), from, to, k - 1);
    }
}

pub proof fn lemma_find_edge_none(edges: Seq<EdgeV>, from: Seq<char>, to: Seq<char>)
    requires
        forall|j: int| 0 <= j < edges.len() ==> !(#[trigger] edges[j].from == from && edges[j].to == to),
    ensures
        find_edge(edges, from, to) == edges.len(),
    decreases edges.len(),
{
    if edges.len() > 0 {
        lemma_find_edge_none(edges.drop_first(), from, to);
    }
}

// ---------------------------------------------------------------------------
// Well-formedness is preserved by every transition
// ---------------------------------------------------------------------------

proof fn lemma_apply_now_wf(m: StateModel, e: EventV)
    requires
        wf(m),
        !m.in_batch || e is BatchStart,
    ensures
        wf(apply_now(m, e).0),
{
}

proof fn lemma_drain_wf(m: StateModel, pending: Seq<EventV>)
    requires
        wf(m),
        queue_wf(pending),
    ensures
        wf(drain(m, pending).0),
    decreases pending.len(),
{
    if pending.len() > 0 {
        let e = pending[0];
        assert(!(e is BatchEnd));
        let (m1, _) = step_plain(m, e);
        assert(wf(m1)) by {
            if m.in_batch {
                if !(e is BatchEnd) {
                }
            } else {
                lemma_apply_now_wf(m, e);
            }
        }
        assert(queue_wf(pending.drop_first())) by {
            assert(forall|i: int|
                0 <= i < pending.drop_first().len() ==> pending.drop_first()[i] == pending[i + 1]);
        }
        lemma_drain_wf(m1, pending.drop_first());
    }
}

/// Every transition preserves well-formedness of the batch bookkeeping.
pub proof fn lemma_step_wf(m: StateModel, e: EventV)
    requires
        wf(m),
    ensures
        wf(step(m, e).0),
{
    if m.in_batch && !(e is BatchEnd) {
    } else if e is BatchEnd {
        let m1 = StateModel { in_batch: false, queue: Seq::empty(), ..m };
        lemma_drain_wf(m1, m.queue);
    } else {
        lemma_apply_now_wf(m, e);
    }
}

// ---------------------------------------------------------------------------
// The graph invariants are preserved by every transition
// ---------------------------------------------------------------------------

/// A node id is present exactly when some entry carries it.
pub proof fn lemma_has_node_exists(nodes: Seq<(Seq<char>, NodeInfoV)>, id: Seq<char>)
    ensures
        has_node(nodes, id) == exists|j: int| 0 <= j < nodes.len() && (#[trigger] nodes[j].0)
            == id,
{
    lemma_find_node(nodes, id);
    if has_node(nodes, id) {
        assert(nodes[find_node(nodes, id)].0 == id);
    } else {
        if exists|j: int| 0 <= j < nodes.len() && (#[trigger] nodes[j].0) == id {
            let j = choose|j: int| 0 <= j < nodes.len() && (#[trigger] nodes[j].0) == id;
            assert(nodes[j].0 != id);
        }
    }
}

/// An ordered pair is present exactly when some edge carries it.
pub proof fn lemma_has_edge_exists(edges: Seq<EdgeV>, from: Seq<char>, to: Seq<char>)
    ensures
        has_edge(edges, from, to) == exists|j: int|
            0 <= j < edges.len() && (#[trigger] edges[j].from) == from && edges[j].to == to,
{
    lemma_find_edge(edges, from, to);
    if has_edge(edges, from, to) {
        assert(edges[find_edge(edges, from, to)].from == from && edges[find_edge(
            edges,
            from,
            to,
        )].to == to);
    } else {
        if exists|j: int|
            0 <= j < edges.len() && (#[trigger] edges[j].from) == from && edges[j].to == to {
            let j = choose|j: int|
                0 <= j < edges.len() && (#[trigger] edges[j].from) == from && edges[j].to == to;
            assert(!(edges[j].from == from && edges[j].to == to));
        }
    }
}

/// Removal of one node entry does not affect presence of other ids.
proof fn lemma_has_node_remove(nodes: Seq<(Seq<char>, NodeInfoV)>, k: int, id: Seq<char>)
    requires
        0 <= k < nodes.len(),
        nodes[k].0 != id,
    ensures
        has_node(nodes.remove(k), id) == has_node(nodes, id),
{
    let rem = nodes.remove(k);
    lemma_has_node_exists(nodes, id);
    lemma_has_node_exists(rem, id);
    if has_node(nodes, id) {
        let j = choose|j: int| 0 <= j < nodes.len() && (#[trigger] nodes[j].0) == id;
        if j < k {
            assert(rem[j].0 == id);
        } else {
            assert(j > k);
            assert(rem[j - 1].0 == id);
        }
    }
    if has_node(rem, id) {
        let j = choose|j: int| 0 <= j < rem.len() && (#[trigger] rem[j].0) == id;
        if j < k {
            assert(nodes[j].0 == id);
        } else {
            assert(nodes[j + 1].0 == id);
        }
    }
}

/// Pushing a new node entry does not affect presence of other ids.
proof fn lemma_has_node_push(
    nodes: Seq<(Seq<char>, NodeInfoV)>,
    entry: (Seq<char>, NodeInfoV),
    id: Seq<char>,
)
    ensures
        has_node(nodes, id) ==> has_node(nodes.push(entry), id),
        entry.0 == id ==> has_node(nodes.push(entry), id),
    decreases nodes.len(),
{
    lemma_has_node_exists(nodes, id);
    lemma_has_node_exists(nodes.push(entry), id);
    if has_node(nodes, id) {
        let j = choose|j: int| 0 <= j < nodes.len() && (#[trigger] nodes[j].0) == id;
        assert(nodes.push(entry)[j].0 == id);
    }
    if entry.0 == id {
        assert(nodes.push(entry)[nodes.len() as int].0 == id);
    }
}

/// Presence of ids depends only on the id column.
proof fn lemma_find_node_same_ids(
    n1: Seq<(Seq<char>, NodeInfoV)>,
    n2: Seq<(Seq<char>, NodeInfoV)>,
    id: Seq<char>,
)
    requires
        n1.len() == n2.len(),
        forall|i: int| 0 <= i < n1.len() ==> (#[trigger] n1[i].0) == n2[i].0,
    ensures
        find_node(n1, id) == find_node(n2, id),
    decreases n1.len(),
{
    if n1.len() > 0 {
        assert(n1[0].0 == n2[0].0);
        if n1[0].0 != id {
            lemma_find_node_same_ids(n1.drop_first(), n2.drop_first(), id);
        }
    }
}

/// The surviving edges after a node removal: none is incident to the removed
/// id, each was an edge before, and pairwise distinctness is preserved.
pub proof fn lemma_remove_incident_props(edges: Seq<EdgeV>, id: Seq<char>)
    ensures
        forall|i: int|
            0 <= i < remove_incident(edges, id).len() ==> (#[trigger] remove_incident(
                edges,
                id,
            )[i]).from != id && remove_incident(edges, id)[i].to != id,
        forall|i: int|
            0 <= i < remove_incident(edges, id).len() ==> exists|j: int|
                0 <= j < edges.len() && edges[j] == (#[trigger] remove_incident(edges, id)[i]),
        distinct_edges(edges) ==> distinct_edges(remove_incident(edges, id)),
        remove_incident(edges, id).len() <= edges.len(),
    decreases edges.len(),
{
    if edges.len() > 0 {
        lemma_remove_incident_props(edges.drop_last(), id);
        let rest = remove_incident(edges.drop_last(), id);
        let res = remove_incident(edges, id);
        assert(distinct_edges(edges) ==> distinct_edges(edges.drop_last()));
        assert forall|i: int|
            0 <= i < res.len() implies exists|j: int|
            0 <= j < edges.len() && edges[j] == (#[trigger] res[i]) by {
            if i < rest.len() {
                let j = choose|j: int|
                    0 <= j < edges.drop_last().len() && edges.drop_last()[j] == rest[i];
                assert(edges[j] == res[i]);
            } else {
                assert(res[i] == edges.last());
                assert(edges[edges.len() - 1] == res[i]);
            }
        }
        if distinct_edges(edges) {
            assert forall|i: int, j: int|
                0 <= i < j < res.len() implies !(res[i].from == res[j].from && res[i].to
                == res[j].to) by {
                if j < rest.len() {
                } else {
                    assert(res[j] == edges.last());
                    let k = choose|k: int|
                        0 <= k < edges.drop_last().len() && edges.drop_last()[k] == rest[i];
                    assert(edges[k] == res[i]);
                    assert(!(edges[k].from == edges[edges.len() - 1].from && edges[k].to
                        == edges[edges.len() - 1].to));
                }
            }
        }
    }
}

/// Immediate application preserves the graph invariants.
proof fn lemma_apply_now_inv(m: StateModel, e: EventV)
    requires
        graph_inv(m),
    ensures
        graph_inv(apply_now(m, e).0),
{
    let m2 = apply_now(m, e).0;
    match e {
        EventV::AddNode { id, info } => {
            if !has_node(m.nodes, id) {
                lemma_find_node(m.nodes, id);
                lemma_has_node_exists(m.nodes, id);
                assert(distinct_ids(m2.nodes)) by {
                    assert(forall|i: int|
                        0 <= i < m.nodes.len() ==> (#[trigger] m2.nodes[i]) == m.nodes[i]);
                    assert(forall|i: int| 0 <= i < m.nodes.len() ==> m.nodes[i].0 != id);
                }
                assert forall|i: int|
                    0 <= i < m2.edges.len() implies has_node(
                    m2.nodes,
                    (#[trigger] m2.edges[i]).from,
                ) && has_node(m2.nodes, m2.edges[i].to) by {
                    lemma_has_node_push(m.nodes, (id, info), m.edges[i].from);
                    lemma_has_node_push(m.nodes, (id, info), m.edges[i].to);
                }
            }
        },
        EventV::UpdateNode { id, info } => {
            if has_node(m.nodes, id) {
                let k = find_node(m.nodes, id);
                lemma_find_node(m.nodes, id);
                assert(forall|i: int|
                    0 <= i < m.nodes.len() ==> (#[trigger] m2.nodes[i].0) == m.nodes[i].0);
                assert forall|i: int|
                    0 <= i < m2.edges.len() implies has_node(
                    m2.nodes,
                    (#[trigger] m2.edges[i]).from,
                ) && has_node(m2.nodes, m2.edges[i].to) by {
                    lemma_find_node_same_ids(m.nodes, m2.nodes, m.edges[i].from);
                    lemma_find_node_same_ids(m.nodes, m2.nodes, m.edges[i].to);
                }
            }
        },
        EventV::RemoveNode { id } => {
            if has_node(m.nodes, id) {
                let k = find_node(m.nodes, id);
                lemma_find_node(m.nodes, id);
                lemma_remove_incident_props(m.edges, id);
                assert(distinct_ids(m2.nodes)) by {
                    assert(forall|i: int|
                        0 <= i < k ==> (#[trigger] m2.nodes[i]) == m.nodes[i]);
                    assert(forall|i: int|
                        k <= i < m2.nodes.len() ==> (#[trigger] m2.nodes[i]) == m.nodes[i + 1]);
                }
                assert forall|i: int|
                    0 <= i < m2.edges.len() implies has_node(
                    m2.nodes,
                    (#[trigger] m2.edges[i]).from,
                ) && has_node(m2.nodes, m2.edges[i].to) by {
                    let ed = m2.edges[i];
                    let j = choose|j: int| 0 <= j < m.edges.len() && m.edges[j] == ed;
                    assert(has_node(m.nodes, ed.from) && has_node(m.nodes, ed.to));
                    lemma_has_node_remove(m.nodes, k, ed.from);
                    lemma_has_node_remove(m.nodes, k, ed.to);
                }
            }
        },
        EventV::AddEdge { from, to } => {
            lemma_add_edge_inv(m, from, to, None);
        },
        EventV::AddRichEdge { from, to, info } => {
            lemma_add_edge_inv(m, from, to, Some(info));
        },
        EventV::RemoveEdge { from, to } => {
            if has_node(m.nodes, from) && has_node(m.nodes, to) && has_edge(m.edges, from, to) {
                let k = find_edge(m.edges, from, to);
                lemma_find_edge(m.edges, from, to);
                assert(forall|i: int| 0 <= i < k ==> (#[trigger] m2.edges[i]) == m.edges[i]);
                assert(forall|i: int|
                    k <= i < m2.edges.len() ==> (#[trigger] m2.edges[i]) == m.edges[i + 1]);
            }
        },
        EventV::Clear => {},
        EventV::BatchStart => {},
        EventV::BatchEnd => {},
    }
}

proof fn lemma_add_edge_inv(m: StateModel, from: Seq<char>, to: Seq<char>, info: Option<EdgeInfoV>)
    requires
        graph_inv(m),
    ensures
        graph_inv(add_edge_model(m, from, to, info).0),
{
    let m2 = add_edge_model(m, from, to, info).0;
    if has_node(m.nodes, from) && has_node(m.nodes, to) && !has_edge(m.edges, from, to) {
        lemma_find_edge(m.edges, from, to);
        lemma_has_edge_exists(m.edges, from, to);
        assert(distinct_edges(m2.edges)) by {
            assert(forall|i: int|
                0 <= i < m.edges.len() ==> (#[trigger] m2.edges[i]) == m.edges[i]);
            assert(forall|i: int|
                0 <= i < m.edges.len() ==> !((#[trigger] m.edges[i].from) == from && m.edges[i].to
                    == to));
            assert(m2.edges[m.edges.len() as int].from == from);
        }
        assert(edges_closed(m2)) by {
            assert(forall|i: int|
                0 <= i < m.edges.len() ==> (#[trigger] m2.edges[i]) == m.edges[i]);
        }
    }
}

/// One drained event preserves both well-formedness and the graph
/// invariants.
pub proof fn lemma_step_plain_ok(m: StateModel, e: EventV)
    requires
        wf(m),
    ensures
        wf(step_plain(m, e).0),
        graph_inv(m) ==> graph_inv(step_plain(m, e).0),
{
    if m.in_batch && !(e is BatchEnd) {
    } else if e is BatchEnd {
    } else {
        lemma_apply_now_wf(m, e);
        if graph_inv(m) {
            lemma_apply_now_inv(m, e);
        }
    }
}

proof fn lemma_drain_ok(m: StateModel, pending: Seq<EventV>)
    requires
        wf(m),
        queue_wf(pending),
    ensures
        wf(drain(m, pending).0),
        graph_inv(m) ==> graph_inv(drain(m, pending).0),
    decreases pending.len(),
{
    if pending.len() > 0 {
        let e = pending[0];
        assert(!(e is BatchEnd));
        let (m1, _) = step_plain(m, e);
        lemma_step_plain_ok(m, e);
        assert(queue_wf(pending.drop_first())) by {
            assert(forall|i: int|
                0 <= i < pending.drop_first().len() ==> pending.drop_first()[i] == pending[i + 1]);
        }
        lemma_drain_ok(m1, pending.drop_first());
    }
}

// ---------------------------------------------------------------------------
// Laws of the state machine
// ---------------------------------------------------------------------------

/// Events that are neither batch marker.
pub open spec fn no_batch_markers(es: Seq<EventV>) -> bool {
    forall|i: int|
        0 <= i < es.len() ==> !((#[trigger] es[i]) is BatchStart) && !(es[i] is BatchEnd)
}

/// Outside a batch, draining a marker-free event sequence is the same as
/// stepping through it directly, outcomes included.
pub proof fn lemma_drain_is_steps(m: StateModel, es: Seq<EventV>)
    requires
        !m.in_batch,
        no_batch_markers(es),
    ensures
        drain(m, es) == steps(m, es),
        !drain(m, es).0.in_batch,
        drain(m, es).0.queue == m.queue,
    decreases es.len(),
{
    if es.len() > 0 {
        let e = es[0];
        let (m1, r) = apply_now(m, e);
        assert(step_plain(m, e) == (m1, r));
        assert(step(m, e) == (m1, r));
        assert(!m1.in_batch && m1.queue == m.queue);
        assert(no_batch_markers(es.drop_first())) by {
            assert(forall|i: int|
                0 <= i < es.drop_first().len() ==> es.drop_first()[i] == es[i + 1]);
        }
        lemma_drain_is_steps(m1, es.drop_first());
    }
}

/// Inside an open batch, every event short of `BatchEnd` is queued in
/// arrival order and acknowledged with `Success`.
pub proof fn lemma_steps_queueing(m: StateModel, es: Seq<EventV>)
    requires
        m.in_batch,
        forall|i: int| 0 <= i < es.len() ==> !((#[trigger] es[i]) is BatchEnd),
    ensures
        steps(m, es).0 == (StateModel { queue: m.queue + es, ..m }),
        steps(m, es).1 == Seq::new(es.len(), |i: int| EventResult::Success),
    decreases es.len(),
{
    if es.len() == 0 {
        assert(m.queue + es =~= m.queue);
        assert(StateModel { queue: m.queue + es, ..m } =~= m);
        assert(steps(m, es).1 =~= Seq::new(es.len(), |i: int| EventResult::Success));
    } else {
        let m1 = StateModel { queue: m.queue.push(es[0]), ..m };
        assert(step(m, es[0]) == (m1, EventResult::Success));
        assert(forall|i: int| 0 <= i < es.drop_first().len() ==> es.drop_first()[i] == es[i + 1]);
        lemma_steps_queueing(m1, es.drop_first());
        assert(m.queue.push(es[0]) + es.drop_first() =~= m.queue + es);
        assert(steps(m1, es.drop_first()).0 =~= StateModel { queue: m.queue + es, ..m });
        assert(seq![EventResult::Success] + Seq::new(
            es.drop_first().len(),
            |i: int| EventResult::Success,
        ) =~= Seq::new(es.len(), |i: int| EventResult::Success));
    }
}

/// Processing a prefix and then the rest is the same as processing the whole
/// sequence.
pub proof fn lemma_steps_append(m: StateModel, a: Seq<EventV>, b: Seq<EventV>)
    ensures
        steps(m, a + b).0 == steps(steps(m, a).0, b).0,
        steps(m, a + b).1 == steps(m, a).1 + steps(steps(m, a).0, b).1,
    decreases a.len(),
{
    if a.len() == 0 {
        assert(a + b =~= b);
        assert(steps(m, a).1 + steps(steps(m, a).0, b).1 =~= steps(m, b).1);
    } else {
        let (m1, r) = step(m, a[0]);
        assert((a + b)[0] == a[0]);
        assert((a + b).drop_first() =~= a.drop_first() + b);
        lemma_steps_append(m1, a.drop_first(), b);
        assert(seq![r] + (steps(m1, a.drop_first()).1 + steps(
            steps(m1, a.drop_first()).0,
            b,
        ).1) =~= (seq![r] + steps(m1, a.drop_first()).1) + steps(steps(m1, a.drop_first()).0, b).1);
    }
}

/// Processing a single event.
pub proof fn lemma_steps_one(m: StateModel, e: EventV)
    ensures
        steps(m, seq![e]).0 == step(m, e).0,
        steps(m, seq![e]).1 == seq![step(m, e).1],
{
    let es = seq![e];
    let m1 = step(m, e).0;
    let r = step(m, e).1;
    assert(es[0] == e);
    assert(es.drop_first() =~= Seq::<EventV>::empty());
    assert(steps(m1, Seq::<EventV>::empty()) == (m1, Seq::<EventResult>::empty()));
    assert(steps(m, es).1 =~= seq![r]);
}

/// Idempotent batching: applying a marker-free event sequence wrapped in
/// `BatchStart` / `BatchEnd` reaches exactly the state that applying the
/// events individually reaches; the wrapped run acknowledges every event
/// with `Success`, and the outcomes produced while the queue is flushed are
/// exactly the outcomes of the direct run. Batching changes when, not what,
/// is applied.
pub proof fn lemma_batch_equivalence(m: StateModel, es: Seq<EventV>)
    requires
        wf(m),
        !m.in_batch,
        no_batch_markers(es),
    ensures
        steps(m, seq![EventV::BatchStart] + es + seq![EventV::BatchEnd]).0 == steps(m, es).0,
        steps(m, seq![EventV::BatchStart] + es + seq![EventV::BatchEnd]).1 == Seq::new(
            es.len() + 2,
            |i: int| EventResult::Success,
        ),
        drain(m, es).1 == steps(m, es).1,
{
    let start = seq![EventV::BatchStart];
    let endm = seq![EventV::BatchEnd];
    let wrapped = start + es + endm;
    let mb = StateModel { in_batch: true, queue: Seq::empty(), ..m };
    assert(steps(m, start).0 == mb && steps(m, start).1 == seq![EventResult::Success]) by {
        assert(step(m, EventV::BatchStart) == (mb, EventResult::Success));
        lemma_steps_one(m, EventV::BatchStart);
    }
    lemma_steps_append(m, start, es + endm);
    assert(start + (es + endm) =~= wrapped);
    lemma_steps_append(mb, es, endm);
    assert(forall|i: int| 0 <= i < es.len() ==> !((#[trigger] es[i]) is BatchEnd));
    lemma_steps_queueing(mb, es);
    let mq = StateModel { queue: Seq::<EventV>::empty() + es, ..mb };
    assert(steps(mb, es).0 == mq);
    let mqq = StateModel { in_batch: false, queue: Seq::empty(), ..mq };
    assert(mqq =~= m) by {
        assert(m.queue.len() == 0);
        assert(m.queue =~= Seq::<EventV>::empty());
    }
    assert(mq.queue =~= es);
    lemma_drain_is_steps(m, es);
    assert(steps(mq, endm).0 == drain(m, es).0 && steps(mq, endm).1 == seq![
        EventResult::Success,
    ]) by {
        assert(step(mq, EventV::BatchEnd) == (drain(mqq, mq.queue).0, EventResult::Success));
        assert(drain(mqq, mq.queue) == drain(m, es));
        lemma_steps_one(mq, EventV::BatchEnd);
    }
    assert(steps(m, wrapped).0 == steps(m, es).0);
    assert(steps(m, wrapped).1 =~= Seq::new(es.len() + 2, |i: int| EventResult::Success)) by {
        assert(steps(m, wrapped).1 == seq![EventResult::Success] + (Seq::new(
            es.len(),
            |i: int| EventResult::Success,
        ) + seq![EventResult::Success]));
    }
}

/// Dedup of single additions: `AddNode` on a present id is rejected with
/// `NodeExists` and changes nothing; on an absent id it succeeds and appends
/// exactly that node. `AddEdge`/`AddRichEdge` on a present ordered pair is
/// rejected with `EdgeExists` and changes nothing; with both endpoints
/// present and a fresh pair it succeeds and appends exactly that edge.
pub proof fn lemma_add_dedup(m: StateModel, id: Seq<char>, info: NodeInfoV, ed: EdgeV)
    requires
        !m.in_batch,
    ensures
        has_node(m.nodes, id) ==> step(m, EventV::AddNode { id, info }) == (
            m,
            EventResult::NodeExists,
        ),
        !has_node(m.nodes, id) ==> step(m, EventV::AddNode { id, info }) == (
            StateModel { nodes: m.nodes.push((id, info)), ..m },
            EventResult::Success,
        ),
        has_node(m.nodes, ed.from) && has_node(m.nodes, ed.to) && has_edge(
            m.edges,
            ed.from,
            ed.to,
        ) ==> step(m, EventV::AddEdge { from: ed.from, to: ed.to }) == (
            m,
            EventResult::EdgeExists,
        ),
        has_node(m.nodes, ed.from) && has_node(m.nodes, ed.to) && !has_edge(
            m.edges,
            ed.from,
            ed.to,
        ) ==> step(m, EventV::AddEdge { from: ed.from, to: ed.to }) == (
            StateModel {
                edges: m.edges.push(EdgeV { from: ed.from, to: ed.to, info: None }),
                ..m
            },
            EventResult::Success,
        ),
{
}

/// How many events of the sequence are node additions acknowledged with
/// `Success`.
pub open spec fn count_node_adds(es: Seq<EventV>, rs: Seq<EventResult>) -> int
    decreases es.len(),
{
    if es.len() == 0 || rs.len() == 0 {
        0
    } else {
        (if es[0] is AddNode && rs[0] == EventResult::Success {
            1int
        } else {
            0int
        }) + count_node_adds(es.drop_first(), rs.drop_first())
    }
}

/// How many events of the sequence are edge additions acknowledged with
/// `Success`.
pub open spec fn count_edge_adds(es: Seq<EventV>, rs: Seq<EventResult>) -> int
    decreases es.len(),
{
    if es.len() == 0 || rs.len() == 0 {
        0
    } else {
        (if (es[0] is AddEdge || es[0] is AddRichEdge) && rs[0] == EventResult::Success {
            1int
        } else {
            0int
        }) + count_edge_adds(es.drop_first(), rs.drop_first())
    }
}

/// Dedup invariant, counting form: over a sequence of additions the node
/// count grows by exactly the number of `AddNode` events that were
/// acknowledged with `Success` (the distinct new ids), and the edge count by
/// exactly the number of edge additions acknowledged with `Success` (the
/// distinct new ordered pairs).
pub proof fn lemma_dedup_counts(m: StateModel, es: Seq<EventV>)
    requires
        !m.in_batch,
        forall|i: int|
            0 <= i < es.len() ==> (#[trigger] es[i]) is AddNode || es[i] is AddEdge
                || es[i] is AddRichEdge,
    ensures
        steps(m, es).0.nodes.len() == m.nodes.len() + count_node_adds(es, steps(m, es).1),
        steps(m, es).0.edges.len() == m.edges.len() + count_edge_adds(es, steps(m, es).1),
    decreases es.len(),
{
    if es.len() > 0 {
        let e = es[0];
        let (m1, r) = step(m, e);
        assert(step(m, e) == apply_now(m, e));
        assert(!m1.in_batch);
        assert(forall|i: int| 0 <= i < es.drop_first().len() ==> es.drop_first()[i] == es[i + 1]);
        lemma_dedup_counts(m1, es.drop_first());
        assert((seq![r] + steps(m1, es.drop_first()).1).drop_first() =~= steps(
            m1,
            es.drop_first(),
        ).1);
    }
}

/// Removal cascades: removing a present node succeeds, leaves no edge
/// incident to it, and a subsequent `RemoveEdge` on any pair involving the
/// removed id is rejected with `NodeNotFound` and changes nothing — never
/// `Success`.
pub proof fn lemma_removal_cascades(m: StateModel, id: Seq<char>, a: Seq<char>, b: Seq<char>)
    requires
        !m.in_batch,
        graph_inv(m),
        has_node(m.nodes, id),
        a == id || b == id,
    ensures
        ({
            let (m2, r) = step(m, EventV::RemoveNode { id });
            &&& r == EventResult::Success
            &&& forall|j: int|
                0 <= j < m2.edges.len() ==> (#[trigger] m2.edges[j]).from != id && m2.edges[j].to
                    != id
            &&& !has_node(m2.nodes, id)
            &&& step(m2, EventV::RemoveEdge { from: a, to: b }) == (m2, EventResult::NodeNotFound)
        }),
{
    let k = find_node(m.nodes, id);
    lemma_find_node(m.nodes, id);
    lemma_remove_incident_props(m.edges, id);
    let (m2, r) = step(m, EventV::RemoveNode { id });
    assert(m2.nodes == m.nodes.remove(k));
    assert forall|j: int| 0 <= j < m2.nodes.len() implies (#[trigger] m2.nodes[j]).0 != id by {
        if j < k {
            assert(m2.nodes[j] == m.nodes[j]);
        } else {
            assert(m2.nodes[j] == m.nodes[j + 1]);
            assert(m.nodes[k].0 == id);
        }
    }
    lemma_find_node_none(m2.nodes, id);
    assert(!m2.in_batch);
    assert(!has_node(m2.nodes, a) || !has_node(m2.nodes, b));
}

/// Every transition preserves well-formedness and the graph invariants: node
/// ids stay pairwise distinct, ordered edge pairs stay pairwise distinct, and
/// every edge endpoint stays present. This is the dedup invariant of the
/// state machine.
pub proof fn lemma_step_ok(m: StateModel, e: EventV)
    requires
        wf(m),
    ensures
        wf(step(m, e).0),
        graph_inv(m) ==> graph_inv(step(m, e).0),
{
    lemma_step_wf(m, e);
    if graph_inv(m) {
        if m.in_batch && !(e is BatchEnd) {
        } else if e is BatchEnd {
            let m1 = StateModel { in_batch: false, queue: Seq::empty(), ..m };
            lemma_drain_ok(m1, m.queue);
        } else {
            lemma_apply_now_inv(m, e);
        }
    }
}

} // verus!
