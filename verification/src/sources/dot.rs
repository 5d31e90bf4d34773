//! Source for DOT format diagrams: turns DOT text into the canonical event
//! sequence, one `AddNode` per denoted node (ids are taken as given and never
//! rewritten, so they are pairwise distinct), then one `AddEdge` per edge
//! statement in source order, the whole document bracketed by `BatchStart`
//! and `BatchEnd`. DOT parsing is permissive and never fails.

use crate::events::{EventV, GraphEvent};
use crate::parser::{dot_edge_ids, dot_nodes, dot_tables};
use crate::sources::{GraphEventSource, SourceError};
use vstd::prelude::*;

verus! {

/// The event sequence a DOT document denotes.
pub open spec fn dot_events_spec(s: Seq<char>) -> Seq<EventV> {
    let nodes = dot_nodes(s);
    let eids = dot_edge_ids(s);
    seq![EventV::BatchStart] + Seq::new(
        nodes.len(),
        |i: int| EventV::AddNode { id: nodes[i].0, info: nodes[i].1 },
    ) + Seq::new(eids.len(), |i: int| EventV::AddEdge { from: eids[i].0, to: eids[i].1 }) + seq![
        EventV::BatchEnd,
    ]
}

/// Source for DOT format diagrams.
pub struct DotSource {
    content: String,
}

impl View for DotSource {
    type V = Seq<char>;

    closed spec fn view(&self) -> Seq<char> {
        self.content@
    }
}

impl DotSource {
    /// Creates a new DOT source from content.
    pub fn new(content: String) -> (r: DotSource)
        ensures
            r@ == content@,
    {
        DotSource { content }
    }

    /// Creates a new DOT source from a string slice.
    pub fn from_str(content: &str) -> (r: DotSource)
        ensures
            r@ == content@,
    {
        DotSource::new(content.to_owned())
    }
}

impl GraphEventSource for DotSource {
    open spec fn name_spec(&self) -> Seq<char> {
        "DOT"@
    }

    /// DOT parsing is permissive: a source always denotes an event sequence.
    open spec fn events_spec(&self) -> Option<Seq<EventV>> {
        Some(dot_events_spec(self@))
    }

    fn source_name(&self) -> (r: &'static str) {
        "DOT"
    }

    fn events(&self) -> (r: Result<Vec<GraphEvent>, SourceError>) {
        let t = dot_tables(self.content.as_str());
        let ghost nodes = dot_nodes(self@);
        let ghost eids = dot_edge_ids(self@);
        let mut events: Vec<GraphEvent> = Vec::new();
        events.push(GraphEvent::BatchStart);
        proof {
            assert(events.deep_view() =~= seq![EventV::BatchStart]);
        }
        let mut i: usize = 0;
        while i < t.ids.len()
            invariant
                i <= t.ids@.len(),
                t.ids@.len() == t.infos@.len(),
                t.ids@.len() == nodes.len(),
                forall|j: int|
                    0 <= j < t.ids@.len() ==> ((#[trigger] t.ids@[j])@, t.infos@[j]@) == nodes[j],
                events.deep_view() == seq![EventV::BatchStart] + Seq::new(
                    i as nat,
                    |j: int| EventV::AddNode { id: nodes[j].0, info: nodes[j].1 },
                ),
            decreases t.ids@.len() - i,
        {
            let ghost pre = events.deep_view();
            events.push(
                GraphEvent::AddNode { id: t.ids[i].clone(), info: t.infos[i].to_event_info() },
            );
            proof {
                assert((t.ids@[i as int]@, t.infos@[i as int]@) == nodes[i as int]);
                assert(events.deep_view() =~= pre.push(
                    EventV::AddNode { id: nodes[i as int].0, info: nodes[i as int].1 },
                ));
                assert(events.deep_view() =~= seq![EventV::BatchStart] + Seq::new(
                    (i + 1) as nat,
                    |j: int| EventV::AddNode { id: nodes[j].0, info: nodes[j].1 },
                ));
            }
            i += 1;
        }
        let ghost node_events = Seq::new(
            nodes.len(),
            |j: int| EventV::AddNode { id: nodes[j].0, info: nodes[j].1 },
        );
        let mut k: usize = 0;
        proof {
            assert(events.deep_view() =~= (seq![EventV::BatchStart] + node_events) + Seq::new(
                0nat,
                |j: int| EventV::AddEdge { from: eids[j].0, to: eids[j].1 },
            ));
        }
        while k < t.efrom.len()
            invariant
                k <= t.efrom@.len(),
                t.efrom@.len() == t.eto@.len(),
                t.efrom@.len() == eids.len(),
                forall|j: int|
                    0 <= j < t.efrom@.len() ==> (#[trigger] t.efrom@[j])@ == eids[j].0
                        && t.eto@[j]@ == eids[j].1,
                node_events == Seq::new(
                    nodes.len(),
                    |j: int| EventV::AddNode { id: nodes[j].0, info: nodes[j].1 },
                ),
                events.deep_view() == (seq![EventV::BatchStart] + node_events) + Seq::new(
                    k as nat,
                    |j: int| EventV::AddEdge { from: eids[j].0, to: eids[j].1 },
                ),
            decreases t.efrom@.len() - k,
        {
            let ghost pre = events.deep_view();
            events.push(GraphEvent::AddEdge { from: t.efrom[k].clone(), to: t.eto[k].clone() });
            proof {
                assert(t.efrom@[k as int]@ == eids[k as int].0 && t.eto@[k as int]@ == eids[
                    k as int
                ].1);
                assert(events.deep_view() =~= pre.push(
                    EventV::AddEdge { from: eids[k as int].0, to: eids[k as int].1 },
                ));
                assert(events.deep_view() =~= (seq![EventV::BatchStart] + node_events) + Seq::new(
                    (k + 1) as nat,
                    |j: int| EventV::AddEdge { from: eids[j].0, to: eids[j].1 },
                ));
            }
            k += 1;
        }
        let ghost pre = events.deep_view();
        events.push(GraphEvent::BatchEnd);
        proof {
            assert(events.deep_view() =~= pre.push(EventV::BatchEnd));
            assert(events.deep_view() =~= dot_events_spec(self@));
        }
        Ok(events)
    }
}


/// The event stream a DOT document denotes is always wrapped in a single
/// outer batch, so the state machine applies the whole document atomically.
pub proof fn lemma_dot_events_bracketed(s: Seq<char>)
    ensures
        dot_events_spec(s).len() >= 2,
        dot_events_spec(s)[0] is BatchStart,
        dot_events_spec(s).last() is BatchEnd,
{
}

} // verus!
