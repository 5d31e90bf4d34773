//! The graph state machine: applies graph events transactionally to an
//! internal directed graph keyed by external string ids.
//!
//! Every public operation is proved to refine the mathematical transition
//! function [`crate::model::step`], so the laws proved of the model hold of
//! this executable code.

use crate::events::{EventEdgeInfo, EventResult, GraphEvent, NodeInfoV};
use crate::model::{
    add_edge_model, apply_now, drain, find_edge, find_node, graph_inv, has_node, init_model,
    lemma_find_edge_at, lemma_find_edge_none, lemma_find_node_at, lemma_find_node_none,
    lemma_step_ok, lemma_step_plain_ok, node_info_of, queue_wf, remove_incident, step, step_plain,
    steps, wf, EdgeV, StateModel,
};
use crate::strutil::str_eq;
use crate::types::{GraphData, GraphDataV, NodeInfo};
use vstd::prelude::*;

verus! {

/// One stored node: its external id and its payload.
struct NodeEntry {
    id: String,
    info: NodeInfo,
}

impl View for NodeEntry {
    type V = (Seq<char>, NodeInfoV);

    closed spec fn view(&self) -> (Seq<char>, NodeInfoV) {
        (self.id@, self.info@)
    }
}

impl DeepView for NodeEntry {
    type V = (Seq<char>, NodeInfoV);

    closed spec fn deep_view(&self) -> (Seq<char>, NodeInfoV) {
        self.view()
    }
}

/// One stored edge: the ordered endpoint ids and the optional rich payload.
struct EdgeEntry {
    from: String,
    to: String,
    info: Option<EventEdgeInfo>,
}

impl View for EdgeEntry {
    type V = EdgeV;

    closed spec fn view(&self) -> EdgeV {
        EdgeV { from: self.from@, to: self.to@, info: self.info.deep_view() }
    }
}

impl DeepView for EdgeEntry {
    type V = EdgeV;

    closed spec fn deep_view(&self) -> EdgeV {
        self.view()
    }
}

/// Manages the current state of the graph based on events.
pub struct GraphState {
    /// Node table in insertion order; the position is the internal index.
    nodes: Vec<NodeEntry>,
    /// Edge table in insertion order, keyed by endpoint ids.
    edges: Vec<EdgeEntry>,
    /// Whether a batch is currently open.
    in_batch: bool,
    /// Events queued while the batch is open.
    batch_events: Vec<GraphEvent>,
}

impl View for GraphState {
    type V = StateModel;

    closed spec fn view(&self) -> StateModel {
        StateModel {
            nodes: self.nodes.deep_view(),
            edges: self.edges.deep_view(),
            in_batch: self.in_batch,
            queue: self.batch_events.deep_view(),
        }
    }
}

/// Popping the front element relates the deep views of a vector before and
/// after `remove(0)`.
proof fn lemma_dv_drop_first<T: DeepView>(prev: Seq<T>, cur: Seq<T>)
    requires
        prev.len() > 0,
        cur == prev.drop_first(),
    ensures
        Seq::new(cur.len(), |i: int| cur[i].deep_view()) =~= Seq::new(
            prev.len(),
            |i: int| prev[i].deep_view(),
        ).drop_first(),
        Seq::new(prev.len(), |i: int| prev[i].deep_view())[0] == prev[0].deep_view(),
{
    let prev_dv = Seq::new(prev.len(), |i: int| prev[i].deep_view());
    let cur_dv = Seq::new(cur.len(), |i: int| cur[i].deep_view());
    assert forall|j: int| 0 <= j < cur_dv.len() implies cur_dv[j] == prev_dv.drop_first()[j] by {
        assert(cur[j] == prev[j + 1]);
        assert(prev_dv[j + 1] == prev[j + 1].deep_view());
    }
}

/// First index whose entry carries the id, or the length if absent; proved
/// equal to the model's `find_node`.
fn find_node_idx(nodes: &Vec<NodeEntry>, id: &str) -> (r: usize)
    ensures
        r as int == find_node(nodes.deep_view(), id@),
        r <= nodes@.len(),
{
    let mut i: usize = 0;
    while i < nodes.len()
        invariant
            i <= nodes@.len(),
            forall|j: int| 0 <= j < i ==> nodes.deep_view()[j].0 != id@,
        decreases nodes@.len() - i,
    {
        if str_eq(nodes[i].id.as_str(), id) {
            proof {
                assert(nodes.deep_view()[i as int].0 == id@);
                lemma_find_node_at(nodes.deep_view(), id@, i as int);
            }
            return i;
        }
        proof {
            assert(nodes.deep_view()[i as int].0 == nodes@[i as int].id@);
        }
        i += 1;
    }
    proof {
        lemma_find_node_none(nodes.deep_view(), id@);
    }
    nodes.len()
}

/// First index whose edge carries the ordered pair, or the length if absent;
/// proved equal to the model's `find_edge`.
fn find_edge_idx(edges: &Vec<EdgeEntry>, from: &str, to: &str) -> (r: usize)
    ensures
        r as int == find_edge(edges.deep_view(), from@, to@),
        r <= edges@.len(),
{
    let mut i: usize = 0;
    while i < edges.len()
        invariant
            i <= edges@.len(),
            forall|j: int|
                0 <= j < i ==> !((#[trigger] edges.deep_view()[j].from) == from@
                    && edges.deep_view()[j].to == to@),
        decreases edges@.len() - i,
    {
        if str_eq(edges[i].from.as_str(), from) && str_eq(edges[i].to.as_str(), to) {
            proof {
                lemma_find_edge_at(edges.deep_view(), from@, to@, i as int);
            }
            return i;
        }
        proof {
            assert(edges.deep_view()[i as int].from == edges@[i as int].from@);
            assert(edges.deep_view()[i as int].to == edges@[i as int].to@);
        }
        i += 1;
    }
    proof {
        lemma_find_edge_none(edges.deep_view(), from@, to@);
    }
    edges.len()
}

impl Default for GraphState {
    fn default() -> (r: GraphState)
        ensures
            r@ == init_model(),
            r.valid(),
    {
        GraphState::new()
    }
}

impl GraphState {
    /// Validity carried by every live `GraphState`: batch bookkeeping is
    /// well-formed and the graph invariants (distinct ids, distinct ordered
    /// edge pairs, edges closed over present nodes) hold.
    pub open spec fn valid(&self) -> bool {
        wf(self@) && graph_inv(self@)
    }

    /// Creates a new empty graph state.
    pub fn new() -> (r: GraphState)
        ensures
            r@ == init_model(),
            r.valid(),
    {
        let r = GraphState {
            nodes: Vec::new(),
            edges: Vec::new(),
            in_batch: false,
            batch_events: Vec::new(),
        };
        proof {
            assert(r@ =~= init_model());
        }
        r
    }

    /// Immediate application of one event (no batch bookkeeping); refines
    /// the model's `apply_now`.
    fn apply_now_impl(&mut self, event: GraphEvent) -> (r: EventResult)
        ensures
            final(self)@ == apply_now(old(self)@, event@).0,
            r == apply_now(old(self)@, event@).1,
    {
        let ghost pre = self@;
        match event {
            GraphEvent::AddNode { id, info } => {
                let ghost idv = id@;
                let ghost infov = info@;
                let idx = find_node_idx(&self.nodes, id.as_str());
                if idx < self.nodes.len() {
                    EventResult::NodeExists
                } else {
                    let ghost nv = self.nodes.deep_view();
                    self.nodes.push(NodeEntry { id, info: info.to_node_info() });
                    proof {
                        assert(self.nodes.deep_view() =~= nv.push((idv, infov)));
                        assert(self@ =~= StateModel { nodes: pre.nodes.push((idv, infov)), ..pre });
                    }
                    EventResult::Success
                }
            },
            GraphEvent::UpdateNode { id, info } => {
                let ghost idv = id@;
                let ghost infov = info@;
                let idx = find_node_idx(&self.nodes, id.as_str());
                if idx < self.nodes.len() {
                    let ghost nv = self.nodes.deep_view();
                    self.nodes.remove(idx);
                    self.nodes.insert(idx, NodeEntry { id, info: info.to_node_info() });
                    proof {
                        assert(self.nodes.deep_view() =~= nv.update(idx as int, (idv, infov)));
                        assert(self@ =~= StateModel {
                            nodes: pre.nodes.update(find_node(pre.nodes, idv), (idv, infov)),
                            ..pre
                        });
                    }
                    EventResult::Success
                } else {
                    EventResult::NodeNotFound
                }
            },
            GraphEvent::RemoveNode { id } => {
                let idx = find_node_idx(&self.nodes, id.as_str());
                if idx < self.nodes.len() {
                    let ghost nv = self.nodes.deep_view();
                    self.nodes.remove(idx);
                    proof {
                        assert(self.nodes.deep_view() =~= nv.remove(idx as int));
                    }
                    self.filter_incident(&id);
                    proof {
                        assert(self@ =~= StateModel {
                            nodes: pre.nodes.remove(find_node(pre.nodes, id@)),
                            edges: remove_incident(pre.edges, id@),
                            ..pre
                        });
                    }
                    EventResult::Success
                } else {
                    EventResult::NodeNotFound
                }
            },
            GraphEvent::AddEdge { from, to } => self.add_edge_impl(from, to, None),
            GraphEvent::AddRichEdge { from, to, info } => self.add_edge_impl(from, to, Some(info)),
            GraphEvent::RemoveEdge { from, to } => {
                let nfrom = find_node_idx(&self.nodes, from.as_str());
                let nto = find_node_idx(&self.nodes, to.as_str());
                if nfrom >= self.nodes.len() || nto >= self.nodes.len() {
                    return EventResult::NodeNotFound;
                }
                let eidx = find_edge_idx(&self.edges, from.as_str(), to.as_str());
                if eidx < self.edges.len() {
                    let ghost ev = self.edges.deep_view();
                    self.edges.remove(eidx);
                    proof {
                        assert(self.edges.deep_view() =~= ev.remove(eidx as int));
                        assert(self@ =~= StateModel {
                            edges: pre.edges.remove(find_edge(pre.edges, from@, to@)),
                            ..pre
                        });
                    }
                    EventResult::Success
                } else {
                    EventResult::EdgeNotFound
                }
            },
            GraphEvent::Clear => {
                self.nodes.clear();
                self.edges.clear();
                proof {
                    assert(self.nodes.deep_view() =~= Seq::<(Seq<char>, NodeInfoV)>::empty());
                    assert(self.edges.deep_view() =~= Seq::<EdgeV>::empty());
                    assert(self@ =~= StateModel {
                        nodes: Seq::empty(),
                        edges: Seq::empty(),
                        ..pre
                    });
                }
                EventResult::Success
            },
            GraphEvent::BatchStart => {
                self.in_batch = true;
                self.batch_events.clear();
                proof {
                    assert(self.batch_events.deep_view() =~= Seq::<
                        crate::events::EventV,
                    >::empty());
                    assert(self@ =~= StateModel { in_batch: true, queue: Seq::empty(), ..pre });
                }
                EventResult::Success
            },
            GraphEvent::BatchEnd => {
                EventResult::Success
            },
        }
    }

    /// Removes every stored edge incident to the given id, keeping order;
    /// refines the model's `remove_incident`.
    fn filter_incident(&mut self, id: &String)
        ensures
            final(self)@ == (StateModel {
                edges: remove_incident(old(self)@.edges, id@),
                ..old(self)@
            }),
    {
        let ghost pre = self@;
        let mut old_edges: Vec<EdgeEntry> = Vec::new();
        core::mem::swap(&mut old_edges, &mut self.edges);
        let ghost all = old_edges.deep_view();
        proof {
            assert(self.edges.deep_view() =~= Seq::<EdgeV>::empty());
            assert(remove_incident(all.take(0), id@) =~= Seq::<EdgeV>::empty()) by {
                assert(all.take(0) =~= Seq::<EdgeV>::empty());
            }
        }
        let ghost mut consumed: int = 0;
        while old_edges.len() > 0
            invariant
                0 <= consumed <= all.len(),
                old_edges.deep_view() =~= all.skip(consumed),
                self.edges.deep_view() == remove_incident(all.take(consumed), id@),
                self.nodes.deep_view() == pre.nodes,
                self.in_batch == pre.in_batch,
                self.batch_events.deep_view() == pre.queue,
            decreases old_edges@.len(),
        {
            let ghost pre_kept = self.edges.deep_view();
            let ghost prev = old_edges@;
            let ghost prev_dv = old_edges.deep_view();
            let e = old_edges.remove(0);
            proof {
                assert(old_edges@ =~= prev.drop_first());
                lemma_dv_drop_first(prev, old_edges@);
                assert(prev_dv[0] == e.deep_view());
                assert(prev_dv[0] == all.skip(consumed)[0]);
                assert(e@ == all[consumed]);
                assert(old_edges.deep_view() =~= prev_dv.drop_first());
                assert(prev_dv.drop_first() =~= all.skip(consumed + 1)) by {
                    assert forall|j: int|
                        0 <= j < prev_dv.len() - 1 implies prev_dv.drop_first()[j] == all[consumed
                        + 1 + j] by {
                        assert(prev_dv[j + 1] == all.skip(consumed)[j + 1]);
                    }
                }
                assert(all.take(consumed + 1).drop_last() =~= all.take(consumed));
                assert(all.take(consumed + 1).last() == all[consumed]);
            }
            let incident = str_eq(e.from.as_str(), id.as_str()) || str_eq(
                e.to.as_str(),
                id.as_str(),
            );
            if !incident {
                self.edges.push(e);
                proof {
                    assert(self.edges.deep_view() =~= pre_kept.push(all[consumed]));
                }
            }
            proof {
                consumed = consumed + 1;
            }
        }
        proof {
            assert(all.skip(consumed).len() == 0);
            assert(consumed == all.len());
            assert(all.take(consumed) =~= all);
            assert(self@ =~= StateModel { edges: remove_incident(all, id@), ..pre });
        }
    }

    /// Adds a (plain or rich) edge; refines the model's `add_edge_model`.
    fn add_edge_impl(&mut self, from: String, to: String, info: Option<EventEdgeInfo>) -> (r:
        EventResult)
        ensures
            final(self)@ == add_edge_model(old(self)@, from@, to@, info.deep_view()).0,
            r == add_edge_model(old(self)@, from@, to@, info.deep_view()).1,
    {
        let ghost pre = self@;
        let nfrom = find_node_idx(&self.nodes, from.as_str());
        let nto = find_node_idx(&self.nodes, to.as_str());
        if nfrom >= self.nodes.len() || nto >= self.nodes.len() {
            return EventResult::NodeNotFound;
        }
        let eidx = find_edge_idx(&self.edges, from.as_str(), to.as_str());
        if eidx < self.edges.len() {
            EventResult::EdgeExists
        } else {
            let ghost fv = from@;
            let ghost tv = to@;
            let ghost iv = info.deep_view();
            let ghost ev = self.edges.deep_view();
            self.edges.push(EdgeEntry { from, to, info });
            proof {
                assert(self.edges.deep_view() =~= ev.push(EdgeV { from: fv, to: tv, info: iv }));
                assert(self@ =~= StateModel {
                    edges: pre.edges.push(EdgeV { from: fv, to: tv, info: iv }),
                    ..pre
                });
            }
            EventResult::Success
        }
    }

    /// One event transition without queue flushing; refines the model's
    /// `step_plain`.
    fn apply_plain(&mut self, event: GraphEvent) -> (r: EventResult)
        ensures
            final(self)@ == step_plain(old(self)@, event@).0,
            r == step_plain(old(self)@, event@).1,
    {
        let ghost pre = self@;
        let is_end = matches!(event, GraphEvent::BatchEnd);
        if self.in_batch && !is_end {
            let ghost qv = self.batch_events.deep_view();
            let ghost ev = event@;
            self.batch_events.push(event);
            proof {
                assert(self.batch_events.deep_view() =~= qv.push(ev));
                assert(self@ =~= StateModel { queue: pre.queue.push(ev), ..pre });
            }
            return EventResult::Success;
        }
        if is_end {
            self.in_batch = false;
            self.batch_events.clear();
            proof {
                assert(self.batch_events.deep_view() =~= Seq::<crate::events::EventV>::empty());
                assert(self@ =~= StateModel { in_batch: false, queue: Seq::empty(), ..pre });
            }
            return EventResult::Success;
        }
        self.apply_now_impl(event)
    }

    /// Processes a graph event and updates the state: while a batch is open
    /// every event but `BatchEnd` is queued; `BatchEnd` closes the batch and
    /// applies the queued events in arrival order. Refines the model's
    /// `step`.
    pub fn process_event(&mut self, event: GraphEvent) -> (r: EventResult)
        requires
            old(self).valid(),
        ensures
            final(self).valid(),
            final(self)@ == step(old(self)@, event@).0,
            r == step(old(self)@, event@).1,
    {
        let ghost pre = self@;
        proof {
            lemma_step_ok(pre, event@);
        }
        let is_end = matches!(event, GraphEvent::BatchEnd);
        if self.in_batch && !is_end {
            let ghost qv = self.batch_events.deep_view();
            let ghost ev = event@;
            self.batch_events.push(event);
            proof {
                assert(self.batch_events.deep_view() =~= qv.push(ev));
                assert(self@ =~= StateModel { queue: pre.queue.push(ev), ..pre });
            }
            return EventResult::Success;
        }
        if is_end {
            self.in_batch = false;
            let mut pending: Vec<GraphEvent> = Vec::new();
            core::mem::swap(&mut pending, &mut self.batch_events);
            let ghost m1 = self@;
            let ghost pend = pending.deep_view();
            proof {
                assert(self.batch_events.deep_view() =~= Seq::<crate::events::EventV>::empty());
                assert(m1 =~= StateModel { in_batch: false, queue: Seq::empty(), ..pre });
                assert(pend == pre.queue);
            }
            while pending.len() > 0
                invariant
                    wf(self@),
                    queue_wf(pending.deep_view()),
                    drain(m1, pend).0 == drain(self@, pending.deep_view()).0,
                decreases pending@.len(),
            {
                let ghost cur = self@;
                let ghost prev = pending@;
                let ghost pd = pending.deep_view();
                let e = pending.remove(0);
                proof {
                    assert(pending@ =~= prev.drop_first());
                    lemma_dv_drop_first(prev, pending@);
                    assert(pending.deep_view() =~= pd.drop_first());
                    assert(pd[0] == e@);
                    lemma_step_plain_ok(cur, e@);
                }
                let _ = self.apply_plain(e);
            }
            proof {
                assert(pending.deep_view().len() == 0);
                assert(drain(self@, pending.deep_view()).0 == self@);
            }
            return EventResult::Success;
        }
        self.apply_now_impl(event)
    }

    /// Processes multiple events, returning one outcome per event in the
    /// same order; equivalent to folding `process_event` left to right.
    pub fn process_events(&mut self, events: Vec<GraphEvent>) -> (rs: Vec<EventResult>)
        requires
            old(self).valid(),
        ensures
            final(self).valid(),
            final(self)@ == steps(old(self)@, events.deep_view()).0,
            rs@ == steps(old(self)@, events.deep_view()).1,
    {
        let ghost m0 = self@;
        let ghost evs = events.deep_view();
        let mut pending = events;
        let mut rs: Vec<EventResult> = Vec::new();
        proof {
            assert(rs@ + steps(self@, pending.deep_view()).1 =~= steps(
                self@,
                pending.deep_view(),
            ).1);
        }
        while pending.len() > 0
            invariant
                self.valid(),
                steps(m0, evs).0 == steps(self@, pending.deep_view()).0,
                steps(m0, evs).1 == rs@ + steps(self@, pending.deep_view()).1,
            decreases pending@.len(),
        {
            let ghost cur = self@;
            let ghost prev = pending@;
            let ghost pd = pending.deep_view();
            let ghost rs_pre = rs@;
            let e = pending.remove(0);
            proof {
                assert(pending@ =~= prev.drop_first());
                lemma_dv_drop_first(prev, pending@);
                assert(pending.deep_view() =~= pd.drop_first());
                assert(pd[0] == e@);
            }
            let r = self.process_event(e);
            rs.push(r);
            proof {
                assert(rs@ =~= rs_pre.push(r));
                assert(rs_pre + (seq![r] + steps(self@, pending.deep_view()).1) =~= rs_pre.push(r)
                    + steps(self@, pending.deep_view()).1);
            }
        }
        proof {
            assert(pending.deep_view().len() == 0);
            assert(steps(self@, pending.deep_view()).1 =~= Seq::<EventResult>::empty());
            assert(rs@ + Seq::<EventResult>::empty() =~= rs@);
        }
        rs
    }

    /// Returns the number of nodes in the graph.
    pub fn node_count(&self) -> (r: usize)
        ensures
            r == self@.nodes.len(),
    {
        self.nodes.len()
    }

    /// Returns the number of edges in the graph.
    pub fn edge_count(&self) -> (r: usize)
        ensures
            r == self@.edges.len(),
    {
        self.edges.len()
    }

    /// Gets a node's payload by id, or `None` when the id is absent.
    pub fn get_node(&self, id: &str) -> (r: Option<&NodeInfo>)
        ensures
            match r {
                Some(info) => has_node(self@.nodes, id@) && info@ == node_info_of(
                    self@.nodes,
                    id@,
                ),
                None => !has_node(self@.nodes, id@),
            },
    {
        let idx = find_node_idx(&self.nodes, id);
        if idx < self.nodes.len() {
            proof {
                assert(self@.nodes[idx as int] == self.nodes@[idx as int].deep_view());
            }
            Some(&self.nodes[idx].info)
        } else {
            None
        }
    }

    /// Exports a standalone graph value: node payloads in table order, a
    /// fresh id-to-index map, and edges resolved to index pairs. The result
    /// shares nothing with the live state, so later mutations of the state
    /// cannot alter it.
    pub fn as_graph_data(&self) -> (r: GraphData)
        requires
            graph_inv(self@),
        ensures
            r@ == snapshot_model(self@),
    {
        let ghost m = self@;
        let mut nodes_out: Vec<NodeInfo> = Vec::new();
        let mut map_out: Vec<(String, usize)> = Vec::new();
        let mut i: usize = 0;
        while i < self.nodes.len()
            invariant
                i <= self.nodes@.len(),
                self@ == m,
                nodes_out@.len() == i,
                map_out@.len() == i,
                forall|j: int| 0 <= j < i ==> (#[trigger] nodes_out@[j])@ == m.nodes[j].1,
                forall|j: int| 0 <= j < i ==> (#[trigger] map_out@[j]).0@ == m.nodes[j].0,
                forall|j: int| 0 <= j < i ==> (#[trigger] map_out@[j]).1 == j,
            decreases self.nodes@.len() - i,
        {
            proof {
                assert(m.nodes[i as int] == self.nodes@[i as int].deep_view());
            }
            nodes_out.push(self.nodes[i].info.duplicate());
            map_out.push((self.nodes[i].id.clone(), i));
            i += 1;
        }
        let mut edges_out: Vec<(usize, usize)> = Vec::new();
        let mut k: usize = 0;
        while k < self.edges.len()
            invariant
                k <= self.edges@.len(),
                self@ == m,
                graph_inv(m),
                edges_out@.len() == k,
                forall|j: int|
                    0 <= j < k ==> (#[trigger] edges_out@[j]).0 == find_node(
                        m.nodes,
                        m.edges[j].from,
                    ) && edges_out@[j].1 == find_node(m.nodes, m.edges[j].to),
            decreases self.edges@.len() - k,
        {
            proof {
                assert(m.edges[k as int] == self.edges@[k as int].deep_view());
                assert(has_node(m.nodes, m.edges[k as int].from));
                assert(has_node(m.nodes, m.edges[k as int].to));
            }
            let fidx = find_node_idx(&self.nodes, self.edges[k].from.as_str());
            let tidx = find_node_idx(&self.nodes, self.edges[k].to.as_str());
            edges_out.push((fidx, tidx));
            k += 1;
        }
        let r = GraphData { nodes: nodes_out, node_map: map_out, edges: edges_out };
        proof {
            assert(r@.nodes =~= snapshot_model(m).nodes);
            assert(r@.node_map =~= snapshot_model(m).node_map);
            assert(r@.edges =~= snapshot_model(m).edges);
            assert(r@ =~= snapshot_model(m));
        }
        r
    }
}

/// Snapshot fidelity: the exported form of a well-formed state has the same
/// node count, the same edge count, and, for any id, an entry exactly when
/// the id is present, mapping to an index that carries the same payload as
/// the live state. The export is a pure function of the abstract state and is
/// built of fresh owned values, so mutating the live state after the export
/// cannot alter it.
pub proof fn lemma_snapshot_fidelity(m: StateModel, id: Seq<char>)
    requires
        graph_inv(m),
    ensures
        snapshot_model(m).nodes.len() == m.nodes.len(),
        snapshot_model(m).node_map.len() == m.nodes.len(),
        snapshot_model(m).edges.len() == m.edges.len(),
        has_node(m.nodes, id) ==> crate::types::map_find(snapshot_model(m).node_map, id) == Some(
            find_node(m.nodes, id),
        ) && snapshot_model(m).nodes[find_node(m.nodes, id)] == node_info_of(m.nodes, id),
        !has_node(m.nodes, id) ==> crate::types::map_find(snapshot_model(m).node_map, id) is None,
{
    let s = snapshot_model(m);
    crate::model::lemma_find_node(m.nodes, id);
    if has_node(m.nodes, id) {
        let k = find_node(m.nodes, id);
        assert(s.node_map[k].0 == id);
        assert(forall|j: int| 0 <= j < k ==> (#[trigger] s.node_map[j]).0 != id);
        crate::types::lemma_map_find_at(s.node_map, id, k);
    } else {
        assert(forall|j: int| 0 <= j < s.node_map.len() ==> (#[trigger] s.node_map[j]).0 != id);
        crate::types::lemma_map_find_none(s.node_map, id);
    }
}

/// The exported form of an abstract state: node payloads by position, the
/// id-to-index map with one entry per node, and edges as index pairs.
pub open spec fn snapshot_model(m: StateModel) -> GraphDataV {
    GraphDataV {
        nodes: Seq::new(m.nodes.len(), |i: int| m.nodes[i].1),
        node_map: Seq::new(m.nodes.len(), |i: int| (m.nodes[i].0, i)),
        edges: Seq::new(
            m.edges.len(),
            |i: int| (find_node(m.nodes, m.edges[i].from), find_node(m.nodes, m.edges[i].to)),
        ),
    }
}

} // verus!
