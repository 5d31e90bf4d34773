//! Event-sourced graph construction pipeline for textual diagram
//! descriptions.
//!
//! Diagram text (Graphviz DOT or PlantUML sequence notation) is classified by
//! a format detector, parsed into a canonical sequence of graph-mutation
//! events, and applied by a graph state machine that maintains a directed
//! graph with deduplicated nodes and edges, batch-transaction semantics, and
//! a bidirectional mapping between external string ids and internal indices.
//!
//! The executable state machine is proved to refine the mathematical
//! transition function [`model::step`], the parsers are proved equal to
//! spec-level grammars, and the laws of the system — batching equivalence,
//! deduplication, removal cascades, snapshot fidelity — are proved over the
//! model and therefore hold of the executable code.

pub mod events;
pub mod graph_state;
pub mod model;
pub mod parser;
pub mod sources;
pub mod strutil;
pub mod types;
