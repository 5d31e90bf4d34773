//! The DOT-dialect parser: permissive, statement-based parsing of Graphviz
//! text into a standalone graph value.
//!
//! The grammar is specified by `parse_dot_spec`, a mathematical function over
//! the character sequence of the input, and the executable `parse_dot_file`
//! is proved to return exactly its value. Parsing never fails: malformed
//! fragments are skipped, and the worst case is an empty or partial graph.

use crate::events::NodeInfoV;
use crate::model::{find_node, has_node, lemma_find_node_at, lemma_find_node_none};
use crate::strutil::{
    contains_char, contains_str, contains_sub, find_char, find_char_spec, find_sub, find_sub_spec,
    parse_u32, parse_u32_spec, rfind_char, rfind_char_spec, split_char, split_char_spec, str_eq,
    trim, trim_char, trim_char_spec, trim_spec,
};
use crate::types::{GraphData, GraphDataV, NodeInfo};
use vstd::prelude::*;

verus! {

// ---------------------------------------------------------------------------
// Specification of the grammar
// ---------------------------------------------------------------------------

/// A line with its trailing comment removed.
pub open spec fn strip_comment_spec(line: Seq<char>) -> Seq<char> {
    match find_sub_spec(line, "//"@) {
        Some(i) => line.take(i),
        None => line,
    }
}

/// A raw statement reduced to its content: what follows the last `{`, up to
/// the first `}`, trimmed.
pub open spec fn clean_stmt(st: Seq<char>) -> Seq<char> {
    let a = match rfind_char_spec(st, '{') {
        Some(i) => i + 1,
        None => 0,
    };
    let t = st.skip(a);
    let b = match find_char_spec(t, '}') {
        Some(j) => j,
        None => t.len() as int,
    };
    trim_spec(t.take(b))
}

/// The cleaned statements of one line: comment stripped, split on `;`.
pub open spec fn stmts_of_line(line: Seq<char>) -> Seq<Seq<char>> {
    split_char_spec(strip_comment_spec(line), ';').map(|_i: int, st: Seq<char>| clean_stmt(st))
}

pub open spec fn stmts_of_lines(lines: Seq<Seq<char>>) -> Seq<Seq<char>>
    decreases lines.len(),
{
    if lines.len() == 0 {
        Seq::empty()
    } else {
        stmts_of_lines(lines.drop_last()) + stmts_of_line(lines.last())
    }
}

/// The cleaned statements of a whole document, in source order.
pub open spec fn dot_statements(s: Seq<char>) -> Seq<Seq<char>> {
    stmts_of_lines(split_char_spec(s, '\n'))
}

/// An edge statement mentions the arrow.
pub open spec fn is_edge_stmt(st: Seq<char>) -> bool {
    contains_sub(st, "->"@)
}

/// A node-attribute statement has an attribute block and no arrow.
pub open spec fn is_attr_stmt(st: Seq<char>) -> bool {
    !is_edge_stmt(st) && find_char_spec(st, '[') is Some && find_char_spec(st, ']') is Some
}

/// Folds the comma-separated attribute fragments: `type` sets the semantic
/// tag, `level` sets the level (an unparsable level falls back to 0), every
/// other or malformed fragment is skipped.
pub open spec fn parse_attrs(parts: Seq<Seq<char>>) -> (Option<Seq<char>>, u32)
    decreases parts.len(),
{
    if parts.len() == 0 {
        (None, 0u32)
    } else {
        let (nt, lvl) = parse_attrs(parts.drop_last());
        let kv = split_char_spec(parts.last(), '=');
        if kv.len() == 2 {
            let key = trim_spec(kv[0]);
            let value = trim_char_spec(trim_spec(kv[1]), '"');
            if key == "type"@ {
                (Some(value), lvl)
            } else if key == "level"@ {
                (
                    nt,
                    match parse_u32_spec(value) {
                        Some(v) => v,
                        None => 0u32,
                    },
                )
            } else {
                (nt, lvl)
            }
        } else {
            (nt, lvl)
        }
    }
}

/// The id and attributes of a node-attribute statement: the quoted-stripped
/// id before the block, and the `type` / `level` attributes inside it.
pub open spec fn parse_attr_stmt(st: Seq<char>) -> (Seq<char>, Option<Seq<char>>, u32) {
    let lb = match find_char_spec(st, '[') {
        Some(i) => i,
        None => 0,
    };
    let id = trim_char_spec(trim_spec(st.take(lb)), '"');
    let rb = match rfind_char_spec(st, ']') {
        Some(r) => if r >= lb + 1 {
            r
        } else {
            st.len() as int
        },
        None => st.len() as int,
    };
    let attrs = st.subrange(lb + 1, rb);
    let (nt, lvl) = parse_attrs(split_char_spec(attrs, ','));
    (id, nt, lvl)
}

/// The endpoint ids of an edge statement: the quote-stripped text before the
/// first arrow, and the text after it up to the next arrow or attribute
/// block.
pub open spec fn parse_edge_stmt(st: Seq<char>) -> (Seq<char>, Seq<char>) {
    match find_sub_spec(st, "->"@) {
        Some(p) => if 0 <= p && p + 2 <= st.len() {
            let from = trim_char_spec(trim_spec(st.take(p)), '"');
            let rest = st.skip(p + 2);
            let rest2 = match find_sub_spec(rest, "->"@) {
                Some(q) => if 0 <= q <= rest.len() {
                    rest.take(q)
                } else {
                    rest
                },
                None => rest,
            };
            let rest3 = match find_char_spec(rest2, '[') {
                Some(b) => rest2.take(b),
                None => rest2,
            };
            let to = trim_char_spec(trim_spec(rest3), '"');
            (from, to)
        } else {
            (Seq::empty(), Seq::empty())
        },
        None => (Seq::empty(), Seq::empty()),
    }
}

/// The payload a node referenced only by edges gets: its id as display name,
/// no tag, level 0.
pub open spec fn default_info(id: Seq<char>) -> NodeInfoV {
    NodeInfoV { name: id, node_type: None, level: 0 }
}

/// First pass: each node-attribute statement defines a node at its first
/// occurrence, with that statement's attributes.
pub open spec fn pass1(stmts: Seq<Seq<char>>) -> Seq<(Seq<char>, NodeInfoV)>
    decreases stmts.len(),
{
    if stmts.len() == 0 {
        Seq::empty()
    } else {
        let nodes = pass1(stmts.drop_last());
        let st = stmts.last();
        if is_attr_stmt(st) {
            let (id, nt, lvl) = parse_attr_stmt(st);
            if has_node(nodes, id) {
                nodes
            } else {
                nodes.push((id, NodeInfoV { name: id, node_type: nt, level: lvl }))
            }
        } else {
            nodes
        }
    }
}

pub open spec fn ensure_node(
    nodes: Seq<(Seq<char>, NodeInfoV)>,
    id: Seq<char>,
) -> Seq<(Seq<char>, NodeInfoV)> {
    if has_node(nodes, id) {
        nodes
    } else {
        nodes.push((id, default_info(id)))
    }
}

/// Second pass: each edge statement ensures both endpoints exist (created
/// with default payload on first reference) and records the edge, in source
/// order, duplicates included.
pub open spec fn pass2(nodes0: Seq<(Seq<char>, NodeInfoV)>, stmts: Seq<Seq<char>>) -> (
    Seq<(Seq<char>, NodeInfoV)>,
    Seq<(Seq<char>, Seq<char>)>,
)
    decreases stmts.len(),
{
    if stmts.len() == 0 {
        (nodes0, Seq::empty())
    } else {
        let (nodes, edges) = pass2(nodes0, stmts.drop_last());
        let st = stmts.last();
        if is_edge_stmt(st) {
            let (from, to) = parse_edge_stmt(st);
            let n2 = ensure_node(ensure_node(nodes, from), to);
            (n2, edges.push((from, to)))
        } else {
            (nodes, edges)
        }
    }
}

/// The nodes a document denotes: attributed nodes first (in statement
/// order), then edge-referenced nodes in order of first reference.
pub open spec fn dot_nodes(s: Seq<char>) -> Seq<(Seq<char>, NodeInfoV)> {
    pass2(pass1(dot_statements(s)), dot_statements(s)).0
}

/// The edges a document denotes, as ordered id pairs in source order.
pub open spec fn dot_edge_ids(s: Seq<char>) -> Seq<(Seq<char>, Seq<char>)> {
    pass2(pass1(dot_statements(s)), dot_statements(s)).1
}

/// The graph value a DOT document denotes.
pub open spec fn parse_dot_spec(s: Seq<char>) -> GraphDataV {
    let nodes = dot_nodes(s);
    let edges = dot_edge_ids(s);
    GraphDataV {
        nodes: Seq::new(nodes.len(), |i: int| nodes[i].1),
        node_map: Seq::new(nodes.len(), |i: int| (nodes[i].0, i)),
        edges: Seq::new(
            edges.len(),
            |i: int| (find_node(nodes, edges[i].0), find_node(nodes, edges[i].1)),
        ),
    }
}

// ---------------------------------------------------------------------------
// Executable parser
// ---------------------------------------------------------------------------

/// First index in the id column equal to `id`, or the length.
fn find_id(ids: &Vec<String>, id: &str, Ghost(pairs): Ghost<Seq<(Seq<char>, NodeInfoV)>>) -> (r:
    usize)
    requires
        pairs.len() == ids@.len(),
        forall|i: int| 0 <= i < pairs.len() ==> (#[trigger] pairs[i]).0 == ids@[i]@,
    ensures
        r as int == find_node(pairs, id@),
        r <= ids@.len(),
{
    let mut i: usize = 0;
    while i < ids.len()
        invariant
            i <= ids@.len(),
            pairs.len() == ids@.len(),
            forall|j: int| 0 <= j < pairs.len() ==> (#[trigger] pairs[j]).0 == ids@[j]@,
            forall|j: int| 0 <= j < i ==> (#[trigger] pairs[j]).0 != id@,
        decreases ids@.len() - i,
    {
        if str_eq(ids[i].as_str(), id) {
            proof {
                lemma_find_node_at(pairs, id@, i as int);
            }
            return i;
        }
        i += 1;
    }
    proof {
        lemma_find_node_none(pairs, id@);
    }
    ids.len()
}

/// Reduces one raw statement to its content; proved equal to `clean_stmt`.
fn clean_stmt_exec(st: &str) -> (r: String)
    ensures
        r@ == clean_stmt(st@),
{
    let n = st.unicode_len();
    let a = match rfind_char(st, '{') {
        Some(i) => {
            proof {
                crate::strutil::lemma_rfind_char_in_range(st@, '{', i as int);
            }
            i + 1
        },
        None => 0,
    };
    let t = st.substring_char(a, n);
    let m = t.unicode_len();
    let b = match find_char(t, '}') {
        Some(j) => {
            proof {
                crate::strutil::lemma_find_char_in_range(t@, '}', j as int);
            }
            j
        },
        None => m,
    };
    let u = t.substring_char(0, b);
    proof {
        assert(u@ =~= t@.take(b as int));
    }
    trim(u).to_owned()
}

/// Splits a document into cleaned statements; proved equal to
/// `dot_statements`.
fn dot_statements_exec(s: &str) -> (r: Vec<String>)
    ensures
        r.deep_view() == dot_statements(s@),
{
    let lines = split_char(s, '\n');
    let ghost lines_dv = lines.deep_view();
    let mut out: Vec<String> = Vec::new();
    let mut i: usize = 0;
    proof {
        assert(lines_dv.take(0) =~= Seq::<Seq<char>>::empty());
        assert(out.deep_view() =~= stmts_of_lines(lines_dv.take(0)));
    }
    while i < lines.len()
        invariant
            i <= lines@.len(),
            lines_dv == lines.deep_view(),
            lines_dv.len() == lines@.len(),
            out.deep_view() == stmts_of_lines(lines_dv.take(i as int)),
        decreases lines@.len() - i,
    {
        let line = &lines[i];
        proof {
            assert(lines_dv[i as int] == lines@[i as int]@);
        }
        let nocomment = match find_sub(line.as_str(), "//") {
            Some(p) => {
                proof {
                    crate::strutil::lemma_find_sub_in_range(line@, "//"@, p as int);
                }
                let c = line.as_str().substring_char(0, p);
                proof {
                    assert(c@ =~= line@.take(p as int));
                }
                c
            },
            None => line.as_str(),
        };
        proof {
            assert(nocomment@ == strip_comment_spec(line@));
        }
        let segs = split_char(nocomment, ';');
        let ghost segs_dv = segs.deep_view();
        let ghost base = out.deep_view();
        let mut j: usize = 0;
        proof {
            assert(stmts_of_line(line@) =~= segs_dv.map(|_k: int, st: Seq<char>| clean_stmt(st)));
            assert(base + stmts_of_line(line@).take(0) =~= base);
        }
        while j < segs.len()
            invariant
                j <= segs@.len(),
                segs_dv == segs.deep_view(),
                segs_dv.len() == segs@.len(),
                stmts_of_line(lines_dv[i as int]) == segs_dv.map(
                    |_k: int, st: Seq<char>| clean_stmt(st),
                ),
                i < lines@.len(),
                lines_dv == lines.deep_view(),
                lines_dv.len() == lines@.len(),
                out.deep_view() == base + stmts_of_line(lines_dv[i as int]).take(j as int),
            decreases segs@.len() - j,
        {
            let ghost pre = out.deep_view();
            let cleaned = clean_stmt_exec(segs[j].as_str());
            proof {
                assert(segs_dv[j as int] == segs@[j as int]@);
            }
            out.push(cleaned);
            proof {
                assert(out.deep_view() =~= pre.push(clean_stmt(segs_dv[j as int])));
                let mapped = stmts_of_line(lines_dv[i as int]);
                assert(mapped[j as int] == clean_stmt(segs_dv[j as int]));
                assert(out.deep_view() =~= base + mapped.take(j + 1));
            }
            j += 1;
        }
        proof {
            let mapped = stmts_of_line(lines_dv[i as int]);
            assert(mapped.take(segs_dv.len() as int) =~= mapped);
            assert(lines_dv.take(i + 1).drop_last() =~= lines_dv.take(i as int));
            assert(lines_dv.take(i + 1).last() == lines_dv[i as int]);
            assert(out.deep_view() == stmts_of_lines(lines_dv.take(i + 1)));
        }
        i += 1;
    }
    proof {
        assert(lines_dv.take(lines_dv.len() as int) =~= lines_dv);
    }
    out
}

/// Parses a node-attribute statement; proved equal to `parse_attr_stmt`.
fn parse_attr_stmt_exec(st: &str) -> (r: (String, Option<String>, u32))
    requires
        is_attr_stmt(st@),
    ensures
        r.0@ == parse_attr_stmt(st@).0,
        r.1.deep_view() == parse_attr_stmt(st@).1,
        r.2 == parse_attr_stmt(st@).2,
{
    let n = st.unicode_len();
    let lb = match find_char(st, '[') {
        Some(i) => {
            proof {
                crate::strutil::lemma_find_char_in_range(st@, '[', i as int);
            }
            i
        },
        None => 0,  // unreachable: an attribute statement has a block
    };
    let head = st.substring_char(0, lb);
    proof {
        assert(head@ =~= st@.take(lb as int));
    }
    let id = trim_char(trim(head), '"').to_owned();
    let rb = match rfind_char(st, ']') {
        Some(r) => {
            proof {
                crate::strutil::lemma_rfind_char_in_range(st@, ']', r as int);
            }
            if r >= lb + 1 {
                r
            } else {
                n
            }
        },
        None => n,
    };
    let attrs = st.substring_char(lb + 1, rb);
    let parts = split_char(attrs, ',');
    let ghost parts_dv = parts.deep_view();
    let mut nt: Option<String> = None;
    let mut lvl: u32 = 0;
    proof {
        assert(parts_dv.take(0) =~= Seq::<Seq<char>>::empty());
    }
    let mut j: usize = 0;
    while j < parts.len()
        invariant
            j <= parts@.len(),
            parts_dv == parts.deep_view(),
            parts_dv.len() == parts@.len(),
            (nt.deep_view(), lvl) == parse_attrs(parts_dv.take(j as int)),
        decreases parts@.len() - j,
    {
        proof {
            assert(parts_dv[j as int] == parts@[j as int]@);
            assert(parts_dv.take(j + 1).drop_last() =~= parts_dv.take(j as int));
            assert(parts_dv.take(j + 1).last() == parts_dv[j as int]);
        }
        let kv = split_char(parts[j].as_str(), '=');
        proof {
            assert(kv.deep_view().len() == kv@.len());
        }
        if kv.len() == 2 {
            proof {
                assert(kv.deep_view()[0] == kv@[0]@);
                assert(kv.deep_view()[1] == kv@[1]@);
            }
            let key = trim(kv[0].as_str());
            let value = trim_char(trim(kv[1].as_str()), '"');
            if str_eq(key, "type") {
                nt = Some(value.to_owned());
            } else if str_eq(key, "level") {
                lvl = match parse_u32(value) {
                    Some(v) => v,
                    None => 0,
                };
            }
        }
        j += 1;
    }
    proof {
        assert(parts_dv.take(parts_dv.len() as int) =~= parts_dv);
    }
    (id, nt, lvl)
}

/// Parses an edge statement; proved equal to `parse_edge_stmt`.
fn parse_edge_stmt_exec(st: &str) -> (r: (String, String))
    requires
        is_edge_stmt(st@),
    ensures
        r.0@ == parse_edge_stmt(st@).0,
        r.1@ == parse_edge_stmt(st@).1,
{
    let n = st.unicode_len();
    let p = match find_sub(st, "->") {
        Some(p) => p,
        None => 0,  // unreachable: an edge statement contains the arrow
    };
    proof {
        crate::strutil::lemma_find_sub_spec_contains(st@, "->"@);
        crate::strutil::lemma_find_sub_in_range(st@, "->"@, p as int);
        reveal_strlit("->");
        assert("->"@.len() == 2);
    }
    let head = st.substring_char(0, p);
    proof {
        assert(head@ =~= st@.take(p as int));
    }
    let from = trim_char(trim(head), '"').to_owned();
    let rest = st.substring_char(p + 2, n);
    proof {
        assert(rest@ =~= st@.skip(p + 2));
    }
    let rest2 = match find_sub(rest, "->") {
        Some(q) => {
            proof {
                crate::strutil::lemma_find_sub_in_range(rest@, "->"@, q as int);
            }
            let c = rest.substring_char(0, q);
            proof {
                assert(c@ =~= rest@.take(q as int));
            }
            c
        },
        None => rest,
    };
    let rest3 = match find_char(rest2, '[') {
        Some(b) => {
            proof {
                crate::strutil::lemma_find_char_in_range(rest2@, '[', b as int);
            }
            let c = rest2.substring_char(0, b);
            proof {
                assert(c@ =~= rest2@.take(b as int));
            }
            c
        },
        None => rest2,
    };
    let to = trim_char(trim(rest3), '"').to_owned();
    (from, to)
}
/// The parsed node and edge tables of a document, as parallel vectors: node
/// ids with their payloads, and edge endpoint id pairs.
pub(crate) struct DotTables {
    pub(crate) ids: Vec<String>,
    pub(crate) infos: Vec<NodeInfo>,
    pub(crate) efrom: Vec<String>,
    pub(crate) eto: Vec<String>,
}

/// Parses DOT-dialect text into the node and edge tables; proved equal to
/// `dot_nodes` and `dot_edge_ids`.
pub(crate) fn dot_tables(content: &str) -> (r: DotTables)
    ensures
        r.ids@.len() == r.infos@.len(),
        r.ids@.len() == dot_nodes(content@).len(),
        forall|j: int|
            0 <= j < r.ids@.len() ==> ((#[trigger] r.ids@[j])@, r.infos@[j]@) == dot_nodes(
                content@,
            )[j],
        r.efrom@.len() == r.eto@.len(),
        r.efrom@.len() == dot_edge_ids(content@).len(),
        forall|j: int|
            0 <= j < r.efrom@.len() ==> (#[trigger] r.efrom@[j])@ == dot_edge_ids(content@)[j].0
                && r.eto@[j]@ == dot_edge_ids(content@)[j].1,
{
    let stmts = dot_statements_exec(content);
    let ghost stmts_dv = stmts.deep_view();
    let mut ids: Vec<String> = Vec::new();
    let mut infos: Vec<NodeInfo> = Vec::new();
    let ghost mut pairs: Seq<(Seq<char>, NodeInfoV)> = Seq::empty();

    // first pass: attributed nodes
    let mut i: usize = 0;
    proof {
        assert(stmts_dv.take(0) =~= Seq::<Seq<char>>::empty());
        assert(pairs =~= pass1(stmts_dv.take(0)));
    }
    while i < stmts.len()
        invariant
            i <= stmts@.len(),
            stmts_dv == stmts.deep_view(),
            stmts_dv.len() == stmts@.len(),
            pairs == pass1(stmts_dv.take(i as int)),
            pairs.len() == ids@.len(),
            ids@.len() == infos@.len(),
            forall|j: int|
                0 <= j < pairs.len() ==> (#[trigger] pairs[j]) == (ids@[j]@, infos@[j]@),
        decreases stmts@.len() - i,
    {
        proof {
            assert(stmts_dv[i as int] == stmts@[i as int]@);
            assert(stmts_dv.take(i + 1).drop_last() =~= stmts_dv.take(i as int));
            assert(stmts_dv.take(i + 1).last() == stmts_dv[i as int]);
        }
        let st = &stmts[i];
        let edge = contains_str(st.as_str(), "->");
        if !edge && contains_char(st.as_str(), '[') && contains_char(st.as_str(), ']') {
            let (id, nt, lvl) = parse_attr_stmt_exec(st.as_str());
            let idx = find_id(&ids, id.as_str(), Ghost(pairs));
            if idx >= ids.len() {
                let ghost idv = id@;
                let ghost pre = pairs;
                let info = NodeInfo { name: id.clone(), node_type: nt, level: lvl };
                let ghost infov = info@;
                infos.push(info);
                ids.push(id);
                proof {
                    pairs = pairs.push((idv, infov));
                    assert forall|j: int|
                        0 <= j < pairs.len() implies (#[trigger] pairs[j]) == (
                        ids@[j]@,
                        infos@[j]@,
                    ) by {
                        if j < pre.len() {
                            assert(pairs[j] == pre[j]);
                        }
                    }
                }
            }
        }
        i += 1;
    }
    proof {
        assert(stmts_dv.take(stmts_dv.len() as int) =~= stmts_dv);
        assert(pairs == pass1(stmts_dv));
    }

    // second pass: edges, creating missing endpoints
    let ghost nodes1 = pairs;
    let mut efrom: Vec<String> = Vec::new();
    let mut eto: Vec<String> = Vec::new();
    let mut k: usize = 0;
    proof {
        assert(stmts_dv.take(0) =~= Seq::<Seq<char>>::empty());
        assert(pairs == pass2(nodes1, stmts_dv.take(0)).0);
        assert(pass2(nodes1, stmts_dv.take(0)).1 =~= Seq::<(Seq<char>, Seq<char>)>::empty());
    }
    while k < stmts.len()
        invariant
            k <= stmts@.len(),
            stmts_dv == stmts.deep_view(),
            stmts_dv.len() == stmts@.len(),
            pairs == pass2(nodes1, stmts_dv.take(k as int)).0,
            efrom@.len() == eto@.len(),
            efrom@.len() == pass2(nodes1, stmts_dv.take(k as int)).1.len(),
            forall|j: int|
                0 <= j < efrom@.len() ==> (#[trigger] efrom@[j])@ == pass2(
                    nodes1,
                    stmts_dv.take(k as int),
                ).1[j].0 && eto@[j]@ == pass2(nodes1, stmts_dv.take(k as int)).1[j].1,
            pairs.len() == ids@.len(),
            ids@.len() == infos@.len(),
            forall|j: int|
                0 <= j < pairs.len() ==> (#[trigger] pairs[j]) == (ids@[j]@, infos@[j]@),
        decreases stmts@.len() - k,
    {
        proof {
            assert(stmts_dv[k as int] == stmts@[k as int]@);
            assert(stmts_dv.take(k + 1).drop_last() =~= stmts_dv.take(k as int));
            assert(stmts_dv.take(k + 1).last() == stmts_dv[k as int]);
        }
        let st = &stmts[k];
        if contains_str(st.as_str(), "->") {
            let (from, to) = parse_edge_stmt_exec(st.as_str());
            let ghost pre_edges = pass2(nodes1, stmts_dv.take(k as int)).1;
            let fidx = find_id(&ids, from.as_str(), Ghost(pairs));
            if fidx >= ids.len() {
                let ghost pre = pairs;
                let info = NodeInfo { name: from.clone(), node_type: None, level: 0 };
                let ghost infov = info@;
                proof {
                    assert(infov =~= default_info(from@));
                }
                infos.push(info);
                ids.push(from.clone());
                proof {
                    pairs = pairs.push((from@, infov));
                    assert forall|j: int|
                        0 <= j < pairs.len() implies (#[trigger] pairs[j]) == (
                        ids@[j]@,
                        infos@[j]@,
                    ) by {
                        if j < pre.len() {
                            assert(pairs[j] == pre[j]);
                        }
                    }
                }
            }
            let tidx = find_id(&ids, to.as_str(), Ghost(pairs));
            if tidx >= ids.len() {
                let ghost pre = pairs;
                let info = NodeInfo { name: to.clone(), node_type: None, level: 0 };
                let ghost infov = info@;
                proof {
                    assert(infov =~= default_info(to@));
                }
                infos.push(info);
                ids.push(to.clone());
                proof {
                    pairs = pairs.push((to@, infov));
                    assert forall|j: int|
                        0 <= j < pairs.len() implies (#[trigger] pairs[j]) == (
                        ids@[j]@,
                        infos@[j]@,
                    ) by {
                        if j < pre.len() {
                            assert(pairs[j] == pre[j]);
                        }
                    }
                }
            }
            let ghost pre_from = efrom@;
            let ghost pre_to = eto@;
            efrom.push(from);
            eto.push(to);
            proof {
                assert forall|j: int|
                    0 <= j < efrom@.len() implies (#[trigger] efrom@[j])@ == pass2(
                    nodes1,
                    stmts_dv.take(k + 1),
                ).1[j].0 && eto@[j]@ == pass2(nodes1, stmts_dv.take(k + 1)).1[j].1 by {
                    if j < pre_from.len() {
                        assert(efrom@[j] == pre_from[j]);
                        assert(eto@[j] == pre_to[j]);
                        assert(pass2(nodes1, stmts_dv.take(k + 1)).1[j] == pre_edges[j]);
                    }
                }
            }
        }
        k += 1;
    }
    proof {
        assert(stmts_dv.take(stmts_dv.len() as int) =~= stmts_dv);
        assert(pairs == dot_nodes(content@));
    }
    DotTables { ids, infos, efrom, eto }
}

/// Parses DOT-dialect text into a standalone graph value; proved equal to
/// the grammar specification `parse_dot_spec`. Parsing is permissive and
/// never fails.
pub fn parse_dot_file(content: &str) -> (r: GraphData)
    ensures
        r@ == parse_dot_spec(content@),
{
    let t = dot_tables(content);
    let ghost nodes = dot_nodes(content@);
    let ghost pairs = Seq::new(t.ids@.len(), |j: int| (t.ids@[j]@, t.infos@[j]@));
    proof {
        assert(pairs =~= nodes);
    }
    let mut node_map: Vec<(String, usize)> = Vec::new();
    let mut w: usize = 0;
    while w < t.ids.len()
        invariant
            w <= t.ids@.len(),
            node_map@.len() == w,
            forall|j: int|
                0 <= j < w ==> (#[trigger] node_map@[j]).0@ == t.ids@[j]@ && node_map@[j].1 == j,
        decreases t.ids@.len() - w,
    {
        node_map.push((t.ids[w].clone(), w));
        w += 1;
    }
    let mut edges_out: Vec<(usize, usize)> = Vec::new();
    let mut q: usize = 0;
    while q < t.efrom.len()
        invariant
            q <= t.efrom@.len(),
            t.efrom@.len() == t.eto@.len(),
            pairs == Seq::new(t.ids@.len(), |j: int| (t.ids@[j]@, t.infos@[j]@)),
            pairs.len() == t.ids@.len(),
            edges_out@.len() == q,
            forall|j: int|
                0 <= j < q ==> (#[trigger] edges_out@[j]).0 == find_node(pairs, t.efrom@[j]@)
                    && edges_out@[j].1 == find_node(pairs, t.eto@[j]@),
        decreases t.efrom@.len() - q,
    {
        let fidx = find_id(&t.ids, t.efrom[q].as_str(), Ghost(pairs));
        let tidx = find_id(&t.ids, t.eto[q].as_str(), Ghost(pairs));
        edges_out.push((fidx, tidx));
        q += 1;
    }
    let r = GraphData { nodes: t.infos, node_map, edges: edges_out };
    proof {
        let spec = parse_dot_spec(content@);
        let eids = dot_edge_ids(content@);
        assert(r@.nodes =~= spec.nodes) by {
            assert forall|j: int| 0 <= j < nodes.len() implies r@.nodes[j] == nodes[j].1 by {
                assert((t.ids@[j]@, t.infos@[j]@) == nodes[j]);
            }
        }
        assert(r@.node_map =~= spec.node_map) by {
            assert forall|j: int| 0 <= j < nodes.len() implies r@.node_map[j] == (
                nodes[j].0,
                j,
            ) by {
                assert((t.ids@[j]@, t.infos@[j]@) == nodes[j]);
            }
        }
        assert(r@.edges =~= spec.edges) by {
            assert forall|j: int| 0 <= j < eids.len() implies r@.edges[j] == (
                find_node(nodes, eids[j].0),
                find_node(nodes, eids[j].1),
            ) by {
                assert(t.efrom@[j]@ == eids[j].0 && t.eto@[j]@ == eids[j].1);
            }
        }
        assert(r@ =~= spec);
    }
    r
}

/// Every id the first pass emits is fresh when it is pushed, so the node
/// table it builds has pairwise distinct ids.
proof fn lemma_pass1_distinct(stmts: Seq<Seq<char>>)
    ensures
        crate::model::distinct_ids(pass1(stmts)),
    decreases stmts.len(),
{
    if stmts.len() > 0 {
        lemma_pass1_distinct(stmts.drop_last());
        let nodes = pass1(stmts.drop_last());
        let st = stmts.last();
        if is_attr_stmt(st) {
            let (id, nt, lvl) = parse_attr_stmt(st);
            if !has_node(nodes, id) {
                crate::model::lemma_has_node_exists(nodes, id);
                let res = pass1(stmts);
                assert forall|x: int, y: int|
                    0 <= x < y < res.len() implies res[x].0 != res[y].0 by {
                    if y < nodes.len() {
                        assert(res[x] == nodes[x] && res[y] == nodes[y]);
                    } else {
                        assert(res[x] == nodes[x]);
                        assert(res[y].0 == id);
                    }
                }
            }
        }
    }
}

proof fn lemma_ensure_node_distinct(nodes: Seq<(Seq<char>, NodeInfoV)>, id: Seq<char>)
    requires
        crate::model::distinct_ids(nodes),
    ensures
        crate::model::distinct_ids(ensure_node(nodes, id)),
{
    if !has_node(nodes, id) {
        crate::model::lemma_has_node_exists(nodes, id);
        let res = ensure_node(nodes, id);
        assert forall|x: int, y: int| 0 <= x < y < res.len() implies res[x].0 != res[y].0 by {
            if y < nodes.len() {
                assert(res[x] == nodes[x] && res[y] == nodes[y]);
            } else {
                assert(res[x] == nodes[x]);
                assert(res[y].0 == id);
            }
        }
    }
}

proof fn lemma_pass2_distinct(nodes0: Seq<(Seq<char>, NodeInfoV)>, stmts: Seq<Seq<char>>)
    requires
        crate::model::distinct_ids(nodes0),
    ensures
        crate::model::distinct_ids(pass2(nodes0, stmts).0),
    decreases stmts.len(),
{
    if stmts.len() > 0 {
        lemma_pass2_distinct(nodes0, stmts.drop_last());
        let (nodes, edges) = pass2(nodes0, stmts.drop_last());
        let st = stmts.last();
        if is_edge_stmt(st) {
            let (from, to) = parse_edge_stmt(st);
            lemma_ensure_node_distinct(nodes, from);
            lemma_ensure_node_distinct(ensure_node(nodes, from), to);
        }
    }
}

/// Every node a document denotes is emitted exactly once: the node table has
/// pairwise distinct ids.
pub proof fn lemma_dot_nodes_distinct(s: Seq<char>)
    ensures
        crate::model::distinct_ids(dot_nodes(s)),
{
    lemma_pass1_distinct(dot_statements(s));
    lemma_pass2_distinct(pass1(dot_statements(s)), dot_statements(s));
}

} // verus!
