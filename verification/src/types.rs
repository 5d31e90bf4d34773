//! Plain data types shared across the library: the node payload stored in
//! the graph, the standalone exported graph value, and the legacy semantic
//! tag classifier.

use crate::events::{EventNodeInfo, NodeInfoV};
use crate::strutil::str_eq;
use vstd::prelude::*;

verus! {

/// Node payload stored in the graph: display name, open-ended semantic tag,
/// and hierarchy level.
#[derive(Debug, Clone)]
pub struct NodeInfo {
    pub name: String,
    pub node_type: Option<String>,
    pub level: u32,
}

impl View for NodeInfo {
    type V = NodeInfoV;

    open spec fn view(&self) -> NodeInfoV {
        NodeInfoV { name: self.name@, node_type: self.node_type.deep_view(), level: self.level }
    }
}

impl DeepView for NodeInfo {
    type V = NodeInfoV;

    open spec fn deep_view(&self) -> NodeInfoV {
        self.view()
    }
}

impl EventNodeInfo {
    /// Converts an event payload into the stored node payload; the two have
    /// the same mathematical view.
    pub fn to_node_info(self) -> (r: NodeInfo)
        ensures
            r@ == self@,
    {
        NodeInfo { name: self.name, node_type: self.node_type, level: self.level }
    }
}

impl NodeInfo {
    /// A copy as an event payload, with the same view.
    pub fn to_event_info(&self) -> (r: EventNodeInfo)
        ensures
            r@ == self@,
    {
        EventNodeInfo {
            name: self.name.clone(),
            node_type: match &self.node_type {
                Some(s) => Some(s.clone()),
                None => None,
            },
            level: self.level,
        }
    }

    /// A copy with the same view.
    pub fn duplicate(&self) -> (r: NodeInfo)
        ensures
            r@ == self@,
    {
        NodeInfo {
            name: self.name.clone(),
            node_type: match &self.node_type {
                Some(s) => Some(s.clone()),
                None => None,
            },
            level: self.level,
        }
    }
}

/// Mathematical view of an exported graph value.
#[verifier::ext_equal]
pub struct GraphDataV {
    pub nodes: Seq<NodeInfoV>,
    pub node_map: Seq<(Seq<char>, int)>,
    pub edges: Seq<(int, int)>,
}

/// A standalone, alias-free directed graph: node payloads indexed by
/// position, a map from external string id to node index, and edges as
/// ordered index pairs. This is the only artifact handed to external
/// consumers; it shares nothing with the live state it was exported from.
pub struct GraphData {
    pub nodes: Vec<NodeInfo>,
    pub node_map: Vec<(String, usize)>,
    pub edges: Vec<(usize, usize)>,
}

impl View for GraphData {
    type V = GraphDataV;

    open spec fn view(&self) -> GraphDataV {
        GraphDataV {
            nodes: Seq::new(self.nodes@.len(), |i: int| self.nodes@[i]@),
            node_map: Seq::new(
                self.node_map@.len(),
                |i: int| (self.node_map@[i].0@, self.node_map@[i].1 as int),
            ),
            edges: Seq::new(
                self.edges@.len(),
                |i: int| (self.edges@[i].0 as int, self.edges@[i].1 as int),
            ),
        }
    }
}

/// Index recorded in the map for the given id, or `None` if the id has no
/// entry (first entry wins).
pub open spec fn map_find(node_map: Seq<(Seq<char>, int)>, id: Seq<char>) -> Option<int>
    decreases node_map.len(),
{
    if node_map.len() == 0 {
        None
    } else if node_map[0].0 == id {
        Some(node_map[0].1)
    } else {
        map_find(node_map.drop_first(), id)
    }
}

pub proof fn lemma_map_find_at(node_map: Seq<(Seq<char>, int)>, id: Seq<char>, k: int)
    requires
        0 <= k < node_map.len(),
        node_map[k].0 == id,
        forall|j: int| 0 <= j < k ==> node_map[j].0 != id,
    ensures
        map_find(node_map, id) == Some(node_map[k].1),
    decreases k,
{
    if k > 0 {
        lemma_map_find_at(node_map.drop_first(), id, k - 1);
    }
}

pub proof fn lemma_map_find_none(node_map: Seq<(Seq<char>, int)>, id: Seq<char>)
    requires
        forall|j: int| 0 <= j < node_map.len() ==> node_map[j].0 != id,
    ensures
        map_find(node_map, id) is None,
    decreases node_map.len(),
{
    if node_map.len() > 0 {
        lemma_map_find_none(node_map.drop_first(), id);
    }
}

impl GraphData {
    /// An empty graph value.
    pub fn new() -> (r: GraphData)
        ensures
            r@.nodes.len() == 0,
            r@.node_map.len() == 0,
            r@.edges.len() == 0,
    {
        GraphData { nodes: Vec::new(), node_map: Vec::new(), edges: Vec::new() }
    }

    /// Number of nodes.
    pub fn node_count(&self) -> (r: usize)
        ensures
            r == self@.nodes.len(),
    {
        self.nodes.len()
    }

    /// Number of edges.
    pub fn edge_count(&self) -> (r: usize)
        ensures
            r == self@.edges.len(),
    {
        self.edges.len()
    }

    /// The index recorded for the given id, if any.
    pub fn node_index(&self, id: &str) -> (r: Option<usize>)
        ensures
            match r {
                Some(i) => map_find(self@.node_map, id@) == Some(i as int),
                None => map_find(self@.node_map, id@) is None,
            },
    {
        let mut i: usize = 0;
        while i < self.node_map.len()
            invariant
                i <= self.node_map@.len(),
                self@.node_map.len() == self.node_map@.len(),
                forall|j: int| 0 <= j < i ==> self@.node_map[j].0 != id@,
            decreases self.node_map@.len() - i,
        {
            if str_eq(self.node_map[i].0.as_str(), id) {
                proof {
                    assert(self@.node_map[i as int].0 == id@);
                    lemma_map_find_at(self@.node_map, id@, i as int);
                }
                return Some(self.node_map[i].1);
            }
            i += 1;
        }
        proof {
            lemma_map_find_none(self@.node_map, id@);
        }
        None
    }

    /// Whether the map has an entry for the given id.
    pub fn contains_id(&self, id: &str) -> (r: bool)
        ensures
            r == (map_find(self@.node_map, id@) is Some),
    {
        self.node_index(id).is_some()
    }

    /// The node payload recorded for the given id, if its entry is in range.
    pub fn get(&self, id: &str) -> (r: Option<&NodeInfo>)
        ensures
            match r {
                Some(info) => {
                    &&& map_find(self@.node_map, id@) is Some
                    &&& 0 <= map_find(self@.node_map, id@).unwrap() < self@.nodes.len()
                    &&& info@ == self@.nodes[map_find(self@.node_map, id@).unwrap()]
                },
                None => map_find(self@.node_map, id@) is None || !(0 <= map_find(
                    self@.node_map,
                    id@,
                ).unwrap() < self@.nodes.len()),
            },
    {
        match self.node_index(id) {
            Some(i) => {
                if i < self.nodes.len() {
                    Some(&self.nodes[i])
                } else {
                    None
                }
            },
            None => None,
        }
    }
}

/// Closed classification of the conventional semantic tags used by
/// organisational diagrams; tags outside the closed set classify as
/// `Default`. The open-ended `node_type` strings on nodes are preserved
/// verbatim; this classifier is a convenience for consumers that render by
/// kind.
#[derive(Debug, Clone, Copy, PartialEq, Eq, Structural)]
pub enum NodeType {
    Organization,
    LineOfBusiness,
    Site,
    Team,
    User,
    Default,
}

/// The classification `NodeType::parse` implements.
pub open spec fn node_type_parse_spec(s: Seq<char>) -> NodeType {
    if s == "organization"@ || s == "org"@ {
        NodeType::Organization
    } else if s == "lob"@ || s == "lineofbusiness"@ || s == "line_of_business"@ {
        NodeType::LineOfBusiness
    } else if s == "site"@ {
        NodeType::Site
    } else if s == "team"@ {
        NodeType::Team
    } else if s == "user"@ {
        NodeType::User
    } else {
        NodeType::Default
    }
}

impl NodeType {
    /// Classifies a semantic tag string.
    pub fn parse(value: &str) -> (r: NodeType)
        ensures
            r == node_type_parse_spec(value@),
    {
        if str_eq(value, "organization") || str_eq(value, "org") {
            NodeType::Organization
        } else if str_eq(value, "lob") || str_eq(value, "lineofbusiness") || str_eq(
            value,
            "line_of_business",
        ) {
            NodeType::LineOfBusiness
        } else if str_eq(value, "site") {
            NodeType::Site
        } else if str_eq(value, "team") {
            NodeType::Team
        } else if str_eq(value, "user") {
            NodeType::User
        } else {
            NodeType::Default
        }
    }
}

} // verus!
