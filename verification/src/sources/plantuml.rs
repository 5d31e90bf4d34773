//! Source for PlantUML sequence diagrams: turns `@startuml` … `@enduml`
//! text into the canonical event sequence.
//!
//! The grammar is specified by `puml_parse_spec` over the character sequence
//! of the input, and the executable parser is proved to return exactly its
//! value. Unlike DOT, PlantUML parsing is strict on structure: a missing
//! start or end tag, an unrecognizable line, an unknown arrow, or an
//! unterminated block fails the whole parse. Unrecognized semantic details
//! stay permissive: `note` lines and block bodies are tolerated, and message
//! endpoints that were never declared still yield nodes.

use crate::events::{EdgeInfoV, EventEdgeInfo, EventNodeInfo, EventV, GraphEvent, NodeInfoV};
use crate::sources::{GraphEventSource, SourceError};
use crate::strutil::{
    find_char, find_char_spec, is_space, lemma_find_char_in_range, match_at, match_at_safe,
    split_char, split_char_spec, str_eq, trim, trim_spec,
};
use vstd::prelude::*;

verus! {

/// Message kinds a PlantUML arrow can denote; `Unknown` marks the lost /
/// found arrow forms whose kind this dialect does not define.
#[derive(Debug, Clone, Copy, PartialEq, Eq, Structural)]
pub enum MessageKind {
    Sync,
    Async,
    Return,
    Unknown,
}

/// The `edge_type` tag a message kind carries.
pub open spec fn kind_tag(k: MessageKind) -> Seq<char> {
    match k {
        MessageKind::Sync => "sync"@,
        MessageKind::Async => "async"@,
        MessageKind::Return => "return"@,
        MessageKind::Unknown => Seq::empty(),
    }
}

// ---------------------------------------------------------------------------
// Low-level scanning
// ---------------------------------------------------------------------------

pub open spec fn is_ident_start(c: char) -> bool {
    ('a' <= c && c <= 'z') || ('A' <= c && c <= 'Z')
}

pub open spec fn is_ident_char(c: char) -> bool {
    is_ident_start(c) || ('0' <= c && c <= '9') || c == '_'
}

/// First position at or after `i` that is not whitespace.
pub open spec fn skip_ws(s: Seq<char>, i: int) -> int
    decreases s.len() - i,
{
    if 0 <= i && i < s.len() && is_space(s[i]) {
        skip_ws(s, i + 1)
    } else {
        i
    }
}

/// First position at or after `i` that is not an identifier character.
pub open spec fn ident_end(s: Seq<char>, i: int) -> int
    decreases s.len() - i,
{
    if 0 <= i && i < s.len() && is_ident_char(s[i]) {
        ident_end(s, i + 1)
    } else {
        i
    }
}

/// An identifier at position `i`: a double-quoted run of characters, or a
/// letter followed by letters, digits and underscores. Returns the
/// identifier text and the position after it.
pub open spec fn parse_ident_at(s: Seq<char>, i: int) -> Option<(Seq<char>, int)> {
    if 0 <= i && i < s.len() && s[i] == '"' {
        match find_char_spec(s.skip(i + 1), '"') {
            Some(j) => Some((s.skip(i + 1).take(j), i + 2 + j)),
            None => None,
        }
    } else if 0 <= i && i < s.len() && is_ident_start(s[i]) {
        Some((s.subrange(i, ident_end(s, i)), ident_end(s, i)))
    } else {
        None
    }
}

/// The arrow at position `i`, if any: its message kind, whether it points
/// right-to-left, and its length. Longest forms are matched first.
pub open spec fn arrow_at(s: Seq<char>, i: int) -> Option<(MessageKind, bool, int)> {
    if match_at(s, "<-->"@, i) {
        Some((MessageKind::Return, false, 4))
    } else if match_at(s, "<<--"@, i) {
        Some((MessageKind::Return, true, 4))
    } else if match_at(s, "-->>"@, i) {
        Some((MessageKind::Return, false, 4))
    } else if match_at(s, "->>"@, i) {
        Some((MessageKind::Async, false, 3))
    } else if match_at(s, "<<-"@, i) {
        Some((MessageKind::Async, true, 3))
    } else if match_at(s, "<--"@, i) {
        Some((MessageKind::Return, true, 3))
    } else if match_at(s, "-->"@, i) {
        Some((MessageKind::Return, false, 3))
    } else if match_at(s, "<->"@, i) {
        Some((MessageKind::Sync, false, 3))
    } else if match_at(s, "->"@, i) {
        Some((MessageKind::Sync, false, 2))
    } else if match_at(s, "<-"@, i) {
        Some((MessageKind::Sync, true, 2))
    } else if match_at(s, "-\\"@, i) {
        Some((MessageKind::Sync, false, 2))
    } else if match_at(s, "\\-"@, i) {
        Some((MessageKind::Sync, true, 2))
    } else if match_at(s, "\\\\"@, i) {
        Some((MessageKind::Sync, false, 2))
    } else if match_at(s, "//"@, i) || match_at(s, "/-"@, i) || match_at(s, "-/"@, i) {
        Some((MessageKind::Unknown, false, 2))
    } else {
        None
    }
}

/// The participant keyword at the start of the line, if any, with the node
/// tag it denotes and its length.
pub open spec fn keyword_at(s: Seq<char>) -> Option<(Seq<char>, int)> {
    if match_at(s, "actor"@, 0) {
        Some(("actor:human"@, 5))
    } else if match_at(s, "participant"@, 0) {
        Some(("actor:participant"@, 11))
    } else if match_at(s, "database"@, 0) {
        Some(("database"@, 8))
    } else if match_at(s, "entity"@, 0) {
        Some(("external"@, 6))
    } else if match_at(s, "control"@, 0) {
        Some(("process"@, 7))
    } else if match_at(s, "boundary"@, 0) {
        Some(("process"@, 8))
    } else if match_at(s, "collections"@, 0) {
        Some(("actor:collections"@, 11))
    } else if match_at(s, "queue"@, 0) {
        Some(("actor:queue"@, 5))
    } else {
        None
    }
}

/// A participant declaration: keyword, identifier, optional `as` alias, end
/// of line.
pub open spec fn parse_participant(s: Seq<char>) -> Option<(Seq<char>, Seq<char>, Option<Seq<char>>)> {
    match keyword_at(s) {
        Some((tag, klen)) => match parse_ident_at(s, skip_ws(s, klen)) {
            Some((id, p2)) => {
                let p3 = skip_ws(s, p2);
                if p3 >= s.len() {
                    Some((tag, id, None))
                } else if match_at(s, "as"@, p3) {
                    match parse_ident_at(s, skip_ws(s, p3 + 2)) {
                        Some((al, p5)) => if skip_ws(s, p5) >= s.len() {
                            Some((tag, id, Some(al)))
                        } else {
                            None
                        },
                        None => None,
                    }
                } else {
                    None
                }
            },
            None => None,
        },
        None => None,
    }
}

/// A parsed message line, before alias resolution and reversal.
#[verifier::ext_equal]
pub struct MsgV {
    pub from: Seq<char>,
    pub to: Seq<char>,
    pub kind: MessageKind,
    pub reversed: bool,
    pub label: Option<Seq<char>>,
}

/// A message: identifier, arrow, identifier, and an optional `:`-prefixed
/// label whose text is trimmed (an empty label counts as none).
pub open spec fn parse_message(s: Seq<char>) -> Option<MsgV> {
    match parse_ident_at(s, skip_ws(s, 0)) {
        Some((id1, p1)) => match arrow_at(s, skip_ws(s, p1)) {
            Some((kind, rev, alen)) => match parse_ident_at(s, skip_ws(s, skip_ws(s, p1) + alen)) {
                Some((id2, p4)) => {
                    let p5 = skip_ws(s, p4);
                    if p5 >= s.len() {
                        Some(MsgV { from: id1, to: id2, kind, reversed: rev, label: None })
                    } else if s[p5] == ':' {
                        let lbl = trim_spec(s.skip(p5 + 1));
                        Some(
                            MsgV {
                                from: id1,
                                to: id2,
                                kind,
                                reversed: rev,
                                label: if lbl.len() == 0 {
                                    None
                                } else {
                                    Some(lbl)
                                },
                            },
                        )
                    } else {
                        None
                    }
                },
                None => None,
            },
            None => None,
        },
        None => None,
    }
}

/// The keyword `kw` of length `k` at the start of the line, as a whole word.
pub open spec fn kw_bound(s: Seq<char>, kw: Seq<char>, k: int) -> bool {
    match_at(s, kw, 0) && (s.len() == k || (k < s.len() && is_space(s[k])))
}

/// An `activate` / `deactivate` line: keyword, identifier, end of line.
pub open spec fn is_activation(s: Seq<char>) -> bool {
    ||| (match_at(s, "activate"@, 0) && activation_tail(s, 8))
    ||| (match_at(s, "deactivate"@, 0) && activation_tail(s, 10))
}

pub open spec fn activation_tail(s: Seq<char>, k: int) -> bool {
    match parse_ident_at(s, skip_ws(s, k)) {
        Some((_id, p)) => skip_ws(s, p) >= s.len(),
        None => false,
    }
}

pub open spec fn is_block_open(s: Seq<char>) -> bool {
    ||| kw_bound(s, "alt"@, 3)
    ||| kw_bound(s, "loop"@, 4)
    ||| kw_bound(s, "opt"@, 3)
    ||| kw_bound(s, "par"@, 4)
}

/// What one line of diagram content means.
pub enum LineV {
    Blank,
    Comment,
    Divider,
    Note,
    Activation,
    BlockOpen,
    BlockElse,
    BlockClose,
    Participant { tag: Seq<char>, id: Seq<char>, alias: Option<Seq<char>> },
    Message { msg: MsgV },
    Bad,
}

/// Classifies one line of diagram content, trying the line forms in a fixed
/// order (declarations before messages, messages before block keywords); a
/// line matching no form, and a message with an unknown arrow, are
/// structural failures.
pub open spec fn classify_line(raw: Seq<char>) -> LineV {
    let s = trim_spec(raw);
    if s.len() == 0 {
        LineV::Blank
    } else if s[0] == '\'' || match_at(s, "/'"@, 0) {
        LineV::Comment
    } else if match_at(s, "=="@, 0) {
        LineV::Divider
    } else if parse_participant(s) is Some {
        let (tag, id, alias) = parse_participant(s).unwrap();
        LineV::Participant { tag, id, alias }
    } else if parse_message(s) is Some {
        let m = parse_message(s).unwrap();
        if m.kind == MessageKind::Unknown {
            LineV::Bad
        } else {
            LineV::Message { msg: m }
        }
    } else if is_activation(s) {
        LineV::Activation
    } else if match_at(s, "note"@, 0) {
        LineV::Note
    } else if is_block_open(s) {
        LineV::BlockOpen
    } else if kw_bound(s, "else"@, 4) {
        LineV::BlockElse
    } else if s == "end"@ {
        LineV::BlockClose
    } else {
        LineV::Bad
    }
}

// ---------------------------------------------------------------------------
// The document fold
// ---------------------------------------------------------------------------

/// Abstract parser state: the alias-to-id map, the ids already emitted, the
/// next message sequence number, the open block depth, the events emitted so
/// far, and whether a structural failure occurred.
#[verifier::ext_equal]
pub struct PumlV {
    pub participants: Seq<(Seq<char>, Seq<char>)>,
    pub known: Seq<Seq<char>>,
    pub seqno: u32,
    pub depth: int,
    pub events: Seq<EventV>,
    pub failed: bool,
}

pub open spec fn find_key(m: Seq<(Seq<char>, Seq<char>)>, k: Seq<char>) -> int
    decreases m.len(),
{
    if m.len() == 0 {
        0
    } else if m[0].0 == k {
        0
    } else {
        1 + find_key(m.drop_first(), k)
    }
}

pub open spec fn assoc_get(m: Seq<(Seq<char>, Seq<char>)>, k: Seq<char>) -> Option<Seq<char>> {
    if find_key(m, k) < m.len() {
        Some(m[find_key(m, k)].1)
    } else {
        None
    }
}

pub open spec fn assoc_set(m: Seq<(Seq<char>, Seq<char>)>, k: Seq<char>, v: Seq<char>) -> Seq<
    (Seq<char>, Seq<char>),
> {
    if find_key(m, k) < m.len() {
        m.update(find_key(m, k), (k, v))
    } else {
        m.push((k, v))
    }
}

pub open spec fn find_str(xs: Seq<Seq<char>>, x: Seq<char>) -> int
    decreases xs.len(),
{
    if xs.len() == 0 {
        0
    } else if xs[0] == x {
        0
    } else {
        1 + find_str(xs.drop_first(), x)
    }
}

pub open spec fn has_str(xs: Seq<Seq<char>>, x: Seq<char>) -> bool {
    find_str(xs, x) < xs.len()
}

/// The payload of a message endpoint that was never declared.
pub open spec fn auto_info(name: Seq<char>) -> NodeInfoV {
    NodeInfoV { name, node_type: Some("actor:participant"@), level: 0 }
}

/// One line of diagram content applied to the parser state. Participants
/// emit `AddNode` (level 0, name from the alias when present); messages
/// resolve aliases, auto-create unknown endpoints, and emit `AddRichEdge`
/// with the message label, kind tag and sequence number; block keywords
/// track nesting; an unmatched `end` or an unclassifiable line fails the
/// parse.
pub open spec fn puml_line_step(st: PumlV, raw: Seq<char>) -> PumlV {
    if st.failed {
        st
    } else {
        match classify_line(raw) {
            LineV::Blank => st,
            LineV::Comment => st,
            LineV::Divider => st,
            LineV::Note => st,
            LineV::Activation => st,
            LineV::BlockElse => st,
            LineV::BlockOpen => PumlV { depth: st.depth + 1, ..st },
            LineV::BlockClose => if st.depth > 0 {
                PumlV { depth: st.depth - 1, ..st }
            } else {
                PumlV { failed: true, ..st }
            },
            LineV::Bad => PumlV { failed: true, ..st },
            LineV::Participant { tag, id, alias } => {
                let name = match alias {
                    Some(a) => a,
                    None => id,
                };
                let parts2 = match alias {
                    Some(a) => assoc_set(st.participants, a, id),
                    None => st.participants,
                };
                PumlV {
                    participants: parts2,
                    known: if has_str(st.known, id) {
                        st.known
                    } else {
                        st.known.push(id)
                    },
                    events: st.events.push(
                        EventV::AddNode {
                            id,
                            info: NodeInfoV { name, node_type: Some(tag), level: 0 },
                        },
                    ),
                    ..st
                }
            },
            LineV::Message { msg } => {
                let af = if msg.reversed {
                    msg.to
                } else {
                    msg.from
                };
                let at2 = if msg.reversed {
                    msg.from
                } else {
                    msg.to
                };
                let fid = match assoc_get(st.participants, af) {
                    Some(x) => x,
                    None => af,
                };
                let tid = match assoc_get(st.participants, at2) {
                    Some(x) => x,
                    None => at2,
                };
                let st1 = if !has_str(st.known, fid) {
                    PumlV {
                        known: st.known.push(fid),
                        events: st.events.push(EventV::AddNode { id: fid, info: auto_info(af) }),
                        ..st
                    }
                } else {
                    st
                };
                let st2 = if !has_str(st1.known, tid) {
                    PumlV {
                        known: st1.known.push(tid),
                        events: st1.events.push(EventV::AddNode { id: tid, info: auto_info(at2) }),
                        ..st1
                    }
                } else {
                    st1
                };
                PumlV {
                    events: st2.events.push(
                        EventV::AddRichEdge {
                            from: fid,
                            to: tid,
                            info: EdgeInfoV {
                                label: msg.label,
                                edge_type: Some(kind_tag(msg.kind)),
                                sequence: Some(st.seqno),
                            },
                        },
                    ),
                    seqno: if st.seqno < 0xffff_ffffu32 {
                        (st.seqno + 1) as u32
                    } else {
                        st.seqno
                    },
                    ..st2
                }
            },
        }
    }
}

pub open spec fn puml_fold(st: PumlV, lines: Seq<Seq<char>>) -> PumlV
    decreases lines.len(),
{
    if lines.len() == 0 {
        st
    } else {
        puml_line_step(puml_fold(st, lines.drop_last()), lines.last())
    }
}

pub open spec fn puml_init() -> PumlV {
    PumlV {
        participants: Seq::empty(),
        known: Seq::empty(),
        seqno: 0,
        depth: 0,
        events: seq![EventV::BatchStart],
        failed: false,
    }
}

/// First line whose trimmed text equals `tag`, or the number of lines.
pub open spec fn find_tag(lines: Seq<Seq<char>>, tag: Seq<char>) -> int
    decreases lines.len(),
{
    if lines.len() == 0 {
        0
    } else if trim_spec(lines[0]) == tag {
        0
    } else {
        1 + find_tag(lines.drop_first(), tag)
    }
}

pub open spec fn all_blank(lines: Seq<Seq<char>>) -> bool {
    forall|i: int| 0 <= i < lines.len() ==> trim_spec(#[trigger] lines[i]).len() == 0
}

/// The event sequence a PlantUML document denotes, or `None` on a structural
/// failure: only blank lines may precede `@startuml` or follow `@enduml`,
/// both tags must be present, every content line must classify, and every
/// block must be terminated.
pub open spec fn puml_parse_spec(s: Seq<char>) -> Option<Seq<EventV>> {
    let lines = split_char_spec(s, '\n');
    let a = find_tag(lines, "@startuml"@);
    if a >= lines.len() {
        None
    } else if !all_blank(lines.take(a)) {
        None
    } else {
        let restl = lines.skip(a + 1);
        let b = find_tag(restl, "@enduml"@);
        if b >= restl.len() {
            None
        } else if !all_blank(restl.skip(b + 1)) {
            None
        } else {
            let st = puml_fold(puml_init(), restl.take(b));
            if st.failed || st.depth != 0 {
                None
            } else {
                Some(st.events.push(EventV::BatchEnd))
            }
        }
    }
}

// ---------------------------------------------------------------------------
// Lemmas used by the executable parser
// ---------------------------------------------------------------------------

proof fn lemma_skip_ws_at(s: Seq<char>, i0: int, j: int)
    requires
        0 <= i0 <= j <= s.len(),
        forall|k: int| i0 <= k < j ==> is_space(#[trigger] s[k]),
        j < s.len() ==> !is_space(s[j]),
    ensures
        skip_ws(s, i0) == j,
    decreases j - i0,
{
    if i0 < j {
        lemma_skip_ws_at(s, i0 + 1, j);
    }
}

proof fn lemma_ident_end_at(s: Seq<char>, i0: int, j: int)
    requires
        0 <= i0 <= j <= s.len(),
        forall|k: int| i0 <= k < j ==> is_ident_char(#[trigger] s[k]),
        j < s.len() ==> !is_ident_char(s[j]),
    ensures
        ident_end(s, i0) == j,
    decreases j - i0,
{
    if i0 < j {
        lemma_ident_end_at(s, i0 + 1, j);
    }
}

proof fn lemma_find_key_at(m: Seq<(Seq<char>, Seq<char>)>, k: Seq<char>, i: int)
    requires
        0 <= i < m.len(),
        m[i].0 == k,
        forall|j: int| 0 <= j < i ==> (#[trigger] m[j]).0 != k,
    ensures
        find_key(m, k) == i,
    decreases i,
{
    if i > 0 {
        lemma_find_key_at(m.drop_first(), k, i - 1);
    }
}

proof fn lemma_find_key_none(m: Seq<(Seq<char>, Seq<char>)>, k: Seq<char>)
    requires
        forall|j: int| 0 <= j < m.len() ==> (#[trigger] m[j]).0 != k,
    ensures
        find_key(m, k) == m.len(),
    decreases m.len(),
{
    if m.len() > 0 {
        lemma_find_key_none(m.drop_first(), k);
    }
}

proof fn lemma_find_str_at(xs: Seq<Seq<char>>, x: Seq<char>, i: int)
    requires
        0 <= i < xs.len(),
        xs[i] == x,
        forall|j: int| 0 <= j < i ==> (#[trigger] xs[j]) != x,
    ensures
        find_str(xs, x) == i,
    decreases i,
{
    if i > 0 {
        lemma_find_str_at(xs.drop_first(), x, i - 1);
    }
}

proof fn lemma_find_str_none(xs: Seq<Seq<char>>, x: Seq<char>)
    requires
        forall|j: int| 0 <= j < xs.len() ==> (#[trigger] xs[j]) != x,
    ensures
        find_str(xs, x) == xs.len(),
    decreases xs.len(),
{
    if xs.len() > 0 {
        lemma_find_str_none(xs.drop_first(), x);
    }
}

proof fn lemma_find_tag_at(lines: Seq<Seq<char>>, tag: Seq<char>, i: int)
    requires
        0 <= i < lines.len(),
        trim_spec(lines[i]) == tag,
        forall|j: int| 0 <= j < i ==> trim_spec(#[trigger] lines[j]) != tag,
    ensures
        find_tag(lines, tag) == i,
    decreases i,
{
    if i > 0 {
        lemma_find_tag_at(lines.drop_first(), tag, i - 1);
    }
}

proof fn lemma_find_tag_none(lines: Seq<Seq<char>>, tag: Seq<char>)
    requires
        forall|j: int| 0 <= j < lines.len() ==> trim_spec(#[trigger] lines[j]) != tag,
    ensures
        find_tag(lines, tag) == lines.len(),
    decreases lines.len(),
{
    if lines.len() > 0 {
        lemma_find_tag_none(lines.drop_first(), tag);
    }
}

proof fn lemma_find_tag_lower(lines: Seq<Seq<char>>, tag: Seq<char>, i: int)
    requires
        0 <= i < lines.len(),
        forall|j: int| 0 <= j <= i ==> trim_spec(#[trigger] lines[j]) != tag,
    ensures
        find_tag(lines, tag) > i,
    decreases i,
{
    assert(trim_spec(lines[0]) != tag);
    if i > 0 {
        assert forall|j: int|
            0 <= j <= i - 1 implies trim_spec(#[trigger] lines.drop_first()[j]) != tag by {
            assert(lines.drop_first()[j] == lines[j + 1]);
        }
        lemma_find_tag_lower(lines.drop_first(), tag, i - 1);
    } else {
        lemma_find_tag_nonneg(lines.drop_first(), tag);
    }
}

proof fn lemma_find_tag_nonneg(lines: Seq<Seq<char>>, tag: Seq<char>)
    ensures
        0 <= find_tag(lines, tag) <= lines.len(),
    decreases lines.len(),
{
    if lines.len() > 0 && trim_spec(lines[0]) != tag {
        lemma_find_tag_nonneg(lines.drop_first(), tag);
    }
}

/// A failed fold stays failed however many more lines follow.
proof fn lemma_fold_failed_monotone(st0: PumlV, lines: Seq<Seq<char>>, j: int)
    requires
        0 <= j <= lines.len(),
        puml_fold(st0, lines.take(j)).failed,
    ensures
        puml_fold(st0, lines).failed,
    decreases lines.len() - j,
{
    if j == lines.len() {
        assert(lines.take(j) =~= lines);
    } else {
        assert(lines.take(j + 1).drop_last() =~= lines.take(j));
        assert(lines.take(j + 1).last() == lines[j]);
        lemma_fold_failed_monotone(st0, lines, j + 1);
    }
}


// ---------------------------------------------------------------------------
// Executable scanning
// ---------------------------------------------------------------------------

fn ident_start_at(s: &str, i: usize) -> (r: bool)
    requires
        i < s@.len(),
    ensures
        r == is_ident_start(s@[i as int]),
{
    let c = s.get_char(i);
    ('a' <= c && c <= 'z') || ('A' <= c && c <= 'Z')
}

fn ident_char_at(s: &str, i: usize) -> (r: bool)
    requires
        i < s@.len(),
    ensures
        r == is_ident_char(s@[i as int]),
{
    let c = s.get_char(i);
    ('a' <= c && c <= 'z') || ('A' <= c && c <= 'Z') || ('0' <= c && c <= '9') || c == '_'
}

fn skip_ws_exec(s: &str, i: usize) -> (r: usize)
    requires
        i <= s@.len(),
    ensures
        r as int == skip_ws(s@, i as int),
        i <= r <= s@.len(),
{
    let n = s.unicode_len();
    let mut j: usize = i;
    while j < n && crate::strutil::is_space_at(s, j)
        invariant
            i <= j <= n,
            n == s@.len(),
            forall|k: int| i <= k < j ==> is_space(#[trigger] s@[k]),
        decreases n - j,
    {
        j += 1;
    }
    proof {
        lemma_skip_ws_at(s@, i as int, j as int);
    }
    j
}

proof fn lemma_ident_end_ge(s: Seq<char>, i: int)
    ensures
        ident_end(s, i) >= i,
    decreases s.len() - i,
{
    if 0 <= i && i < s.len() && is_ident_char(s[i]) {
        lemma_ident_end_ge(s, i + 1);
    }
}

fn ident_end_exec(s: &str, i: usize) -> (r: usize)
    requires
        i <= s@.len(),
    ensures
        r as int == ident_end(s@, i as int),
        i <= r <= s@.len(),
{
    let n = s.unicode_len();
    let mut j: usize = i;
    while j < n && ident_char_at(s, j)
        invariant
            i <= j <= n,
            n == s@.len(),
            forall|k: int| i <= k < j ==> is_ident_char(#[trigger] s@[k]),
        decreases n - j,
    {
        j += 1;
    }
    proof {
        lemma_ident_end_at(s@, i as int, j as int);
    }
    j
}

fn parse_ident_exec(s: &str, i: usize) -> (r: Option<(String, usize)>)
    requires
        i <= s@.len(),
    ensures
        match r {
            Some(p) => {
                &&& parse_ident_at(s@, i as int) == Some((p.0@, p.1 as int))
                &&& i < p.1 <= s@.len()
            },
            None => parse_ident_at(s@, i as int) is None,
        },
{
    let n = s.unicode_len();
    if i < n && s.get_char(i) == '"' {
        let rest = s.substring_char(i + 1, n);
        proof {
            assert(rest@ =~= s@.skip(i + 1));
        }
        match find_char(rest, '"') {
            Some(j) => {
                proof {
                    lemma_find_char_in_range(rest@, '"', j as int);
                }
                let idtext = rest.substring_char(0, j).to_owned();
                proof {
                    assert(idtext@ =~= s@.skip(i + 1).take(j as int));
                }
                Some((idtext, i + 2 + j))
            },
            None => None,
        }
    } else if i < n && ident_start_at(s, i) {
        let e = ident_end_exec(s, i);
        proof {
            assert(ident_end(s@, i as int) == ident_end(s@, i + 1));
            lemma_ident_end_ge(s@, i + 1);
        }
        let idtext = s.substring_char(i, e).to_owned();
        Some((idtext, e))
    } else {
        None
    }
}

fn arrow_at_exec(s: &str, i: usize) -> (r: Option<(MessageKind, bool, usize)>)
    ensures
        match r {
            Some(a) => arrow_at(s@, i as int) == Some((a.0, a.1, a.2 as int)) && i + a.2
                <= s@.len(),
            None => arrow_at(s@, i as int) is None,
        },
{
    proof {
        reveal_strlit("<-->");
        reveal_strlit("<<--");
        reveal_strlit("-->>");
        reveal_strlit("->>");
        reveal_strlit("<<-");
        reveal_strlit("<--");
        reveal_strlit("-->");
        reveal_strlit("<->");
        reveal_strlit("->");
        reveal_strlit("<-");
        reveal_strlit("-\\");
        reveal_strlit("\\-");
        reveal_strlit("\\\\");
        reveal_strlit("//");
        reveal_strlit("/-");
        reveal_strlit("-/");
    }
    if match_at_safe(s, "<-->", i) {
        Some((MessageKind::Return, false, 4))
    } else if match_at_safe(s, "<<--", i) {
        Some((MessageKind::Return, true, 4))
    } else if match_at_safe(s, "-->>", i) {
        Some((MessageKind::Return, false, 4))
    } else if match_at_safe(s, "->>", i) {
        Some((MessageKind::Async, false, 3))
    } else if match_at_safe(s, "<<-", i) {
        Some((MessageKind::Async, true, 3))
    } else if match_at_safe(s, "<--", i) {
        Some((MessageKind::Return, true, 3))
    } else if match_at_safe(s, "-->", i) {
        Some((MessageKind::Return, false, 3))
    } else if match_at_safe(s, "<->", i) {
        Some((MessageKind::Sync, false, 3))
    } else if match_at_safe(s, "->", i) {
        Some((MessageKind::Sync, false, 2))
    } else if match_at_safe(s, "<-", i) {
        Some((MessageKind::Sync, true, 2))
    } else if match_at_safe(s, "-\\", i) {
        Some((MessageKind::Sync, false, 2))
    } else if match_at_safe(s, "\\-", i) {
        Some((MessageKind::Sync, true, 2))
    } else if match_at_safe(s, "\\\\", i) {
        Some((MessageKind::Sync, false, 2))
    } else if match_at_safe(s, "//", i) || match_at_safe(s, "/-", i) || match_at_safe(s, "-/", i) {
        Some((MessageKind::Unknown, false, 2))
    } else {
        None
    }
}

fn keyword_at_exec(s: &str) -> (r: Option<(String, usize)>)
    ensures
        match r {
            Some(kw) => keyword_at(s@) == Some((kw.0@, kw.1 as int)) && kw.1 <= s@.len(),
            None => keyword_at(s@) is None,
        },
{
    proof {
        reveal_strlit("actor");
        reveal_strlit("participant");
        reveal_strlit("database");
        reveal_strlit("entity");
        reveal_strlit("control");
        reveal_strlit("boundary");
        reveal_strlit("collections");
        reveal_strlit("queue");
    }
    if match_at_safe(s, "actor", 0) {
        Some((String::from_str("actor:human"), 5))
    } else if match_at_safe(s, "participant", 0) {
        Some((String::from_str("actor:participant"), 11))
    } else if match_at_safe(s, "database", 0) {
        Some((String::from_str("database"), 8))
    } else if match_at_safe(s, "entity", 0) {
        Some((String::from_str("external"), 6))
    } else if match_at_safe(s, "control", 0) {
        Some((String::from_str("process"), 7))
    } else if match_at_safe(s, "boundary", 0) {
        Some((String::from_str("process"), 8))
    } else if match_at_safe(s, "collections", 0) {
        Some((String::from_str("actor:collections"), 11))
    } else if match_at_safe(s, "queue", 0) {
        Some((String::from_str("actor:queue"), 5))
    } else {
        None
    }
}

fn parse_participant_exec(s: &str) -> (r: Option<(String, String, Option<String>)>)
    ensures
        match r {
            Some(t) => {
                &&& parse_participant(s@) == Some((t.0@, t.1@, t.2.deep_view()))
            },
            None => parse_participant(s@) is None,
        },
{
    let n = s.unicode_len();
    match keyword_at_exec(s) {
        Some((tag, klen)) => {
            let p1 = skip_ws_exec(s, klen);
            match parse_ident_exec(s, p1) {
                Some((id, p2)) => {
                    let p3 = skip_ws_exec(s, p2);
                    if p3 >= n {
                        Some((tag, id, None))
                    } else if match_at_safe(s, "as", p3) {
                        proof {
                            reveal_strlit("as");
                        }
                        let p4 = skip_ws_exec(s, p3 + 2);
                        match parse_ident_exec(s, p4) {
                            Some((al, p5)) => {
                                if skip_ws_exec(s, p5) >= n {
                                    Some((tag, id, Some(al)))
                                } else {
                                    None
                                }
                            },
                            None => None,
                        }
                    } else {
                        None
                    }
                },
                None => None,
            }
        },
        None => None,
    }
}

fn parse_message_exec(s: &str) -> (r: Option<(String, String, MessageKind, bool, Option<String>)>)
    ensures
        match r {
            Some(m) => parse_message(s@) == Some(
                MsgV { from: m.0@, to: m.1@, kind: m.2, reversed: m.3, label: m.4.deep_view() },
            ),
            None => parse_message(s@) is None,
        },
{
    let n = s.unicode_len();
    let p0 = skip_ws_exec(s, 0);
    match parse_ident_exec(s, p0) {
        Some((id1, p1)) => {
            let p2 = skip_ws_exec(s, p1);
            match arrow_at_exec(s, p2) {
                Some((kind, rev, alen)) => {
                    let p3 = skip_ws_exec(s, p2 + alen);
                    match parse_ident_exec(s, p3) {
                        Some((id2, p4)) => {
                            let p5 = skip_ws_exec(s, p4);
                            if p5 >= n {
                                proof {
                                    assert(parse_message(s@) == Some(
                                        MsgV {
                                            from: id1@,
                                            to: id2@,
                                            kind,
                                            reversed: rev,
                                            label: None,
                                        },
                                    ));
                                }
                                Some((id1, id2, kind, rev, None))
                            } else if s.get_char(p5) == ':' {
                                let tail = s.substring_char(p5 + 1, n);
                                proof {
                                    assert(tail@ =~= s@.skip(p5 + 1));
                                }
                                let lbl = trim(tail).to_owned();
                                let label = if lbl.unicode_len() == 0 {
                                    None
                                } else {
                                    Some(lbl)
                                };
                                Some((id1, id2, kind, rev, label))
                            } else {
                                None
                            }
                        },
                        None => None,
                    }
                },
                None => None,
            }
        },
        None => None,
    }
}

fn kw_bound_exec(s: &str, kw: &str, k: usize) -> (r: bool)
    ensures
        r == kw_bound(s@, kw@, k as int),
{
    let n = s.unicode_len();
    match_at_safe(s, kw, 0) && (n == k || (k < n && crate::strutil::is_space_at(s, k)))
}

fn activation_tail_exec(s: &str, k: usize) -> (r: bool)
    requires
        k <= s@.len(),
    ensures
        r == activation_tail(s@, k as int),
{
    let p = skip_ws_exec(s, k);
    match parse_ident_exec(s, p) {
        Some((_id, q)) => skip_ws_exec(s, q) >= s.unicode_len(),
        None => false,
    }
}

fn is_activation_exec(s: &str) -> (r: bool)
    ensures
        r == is_activation(s@),
{
    if match_at_safe(s, "activate", 0) {
        proof {
            reveal_strlit("activate");
        }
        if activation_tail_exec(s, 8) {
            return true;
        }
    }
    if match_at_safe(s, "deactivate", 0) {
        proof {
            reveal_strlit("deactivate");
        }
        if activation_tail_exec(s, 10) {
            return true;
        }
    }
    false
}

fn is_block_open_exec(s: &str) -> (r: bool)
    ensures
        r == is_block_open(s@),
{
    kw_bound_exec(s, "alt", 3) || kw_bound_exec(s, "loop", 4) || kw_bound_exec(s, "opt", 3)
        || kw_bound_exec(s, "par", 4)
}

/// Executable classification of one line of diagram content.
enum LineK {
    Blank,
    Comment,
    Divider,
    Note,
    Activation,
    BlockOpen,
    BlockElse,
    BlockClose,
    Participant(String, String, Option<String>),
    Message(String, String, MessageKind, bool, Option<String>),
    Bad,
}

fn classify_line_exec(raw: &str) -> (r: LineK)
    ensures
        ({
            let c = classify_line(raw@);
            match r {
                LineK::Blank => c is Blank,
                LineK::Comment => c is Comment,
                LineK::Divider => c is Divider,
                LineK::Note => c is Note,
                LineK::Activation => c is Activation,
                LineK::BlockOpen => c is BlockOpen,
                LineK::BlockElse => c is BlockElse,
                LineK::BlockClose => c is BlockClose,
                LineK::Participant(tag, id, al) => c == (LineV::Participant {
                    tag: tag@,
                    id: id@,
                    alias: al.deep_view(),
                }),
                LineK::Message(f, t, k, rev, lbl) => c == (LineV::Message {
                    msg: MsgV {
                        from: f@,
                        to: t@,
                        kind: k,
                        reversed: rev,
                        label: lbl.deep_view(),
                    },
                }),
                LineK::Bad => c is Bad,
            }
        }),
{
    let s = trim(raw);
    let n = s.unicode_len();
    if n == 0 {
        return LineK::Blank;
    }
    if s.get_char(0) == '\'' || match_at_safe(s, "/'", 0) {
        return LineK::Comment;
    }
    if match_at_safe(s, "==", 0) {
        return LineK::Divider;
    }
    match parse_participant_exec(s) {
        Some((tag, id, al)) => {
            return LineK::Participant(tag, id, al);
        },
        None => {},
    }
    match parse_message_exec(s) {
        Some((f, t, k, rev, lbl)) => {
            if k == MessageKind::Unknown {
                return LineK::Bad;
            }
            return LineK::Message(f, t, k, rev, lbl);
        },
        None => {},
    }
    if is_activation_exec(s) {
        return LineK::Activation;
    }
    if match_at_safe(s, "note", 0) {
        return LineK::Note;
    }
    if is_block_open_exec(s) {
        return LineK::BlockOpen;
    }
    if kw_bound_exec(s, "else", 4) {
        return LineK::BlockElse;
    }
    if str_eq(s, "end") {
        return LineK::BlockClose;
    }
    LineK::Bad
}

fn find_key_exec(
    pk: &Vec<String>,
    x: &str,
    Ghost(m): Ghost<Seq<(Seq<char>, Seq<char>)>>,
) -> (r: usize)
    requires
        m.len() == pk@.len(),
        forall|i: int| 0 <= i < m.len() ==> (#[trigger] m[i]).0 == pk@[i]@,
    ensures
        r as int == find_key(m, x@),
        r <= pk@.len(),
        r < pk@.len() ==> m[r as int].0 == x@,
{
    let mut i: usize = 0;
    while i < pk.len()
        invariant
            i <= pk@.len(),
            m.len() == pk@.len(),
            forall|j: int| 0 <= j < m.len() ==> (#[trigger] m[j]).0 == pk@[j]@,
            forall|j: int| 0 <= j < i ==> (#[trigger] m[j]).0 != x@,
        decreases pk@.len() - i,
    {
        if str_eq(pk[i].as_str(), x) {
            proof {
                lemma_find_key_at(m, x@, i as int);
            }
            return i;
        }
        i += 1;
    }
    proof {
        lemma_find_key_none(m, x@);
    }
    pk.len()
}

fn find_str_exec(xs: &Vec<String>, x: &str) -> (r: usize)
    ensures
        r as int == find_str(xs.deep_view(), x@),
        r <= xs@.len(),
{
    let mut i: usize = 0;
    while i < xs.len()
        invariant
            i <= xs@.len(),
            forall|j: int| 0 <= j < i ==> (#[trigger] xs.deep_view()[j]) != x@,
        decreases xs@.len() - i,
    {
        if str_eq(xs[i].as_str(), x) {
            proof {
                assert(xs.deep_view()[i as int] == xs@[i as int]@);
                lemma_find_str_at(xs.deep_view(), x@, i as int);
            }
            return i;
        }
        proof {
            assert(xs.deep_view()[i as int] == xs@[i as int]@);
        }
        i += 1;
    }
    proof {
        lemma_find_str_none(xs.deep_view(), x@);
    }
    xs.len()
}

fn kind_tag_exec(k: MessageKind) -> (r: String)
    ensures
        r@ == kind_tag(k),
{
    match k {
        MessageKind::Sync => String::from_str("sync"),
        MessageKind::Async => String::from_str("async"),
        MessageKind::Return => String::from_str("return"),
        MessageKind::Unknown => String::new(),
    }
}


// ---------------------------------------------------------------------------
// The executable document parser
// ---------------------------------------------------------------------------

/// Parses a document into its event sequence; `None` is a structural
/// failure. Proved equal to `puml_parse_spec`.
#[verifier::rlimit(100)]
fn puml_events_exec(s: &str) -> (r: Option<Vec<GraphEvent>>)
    ensures
        match r {
            Some(v) => puml_parse_spec(s@) == Some(v.deep_view()),
            None => puml_parse_spec(s@) is None,
        },
{
    let lines = split_char(s, '\n');
    let ghost lines_dv = lines.deep_view();
    let n = lines.len();

    // locate the @startuml tag; only blank lines may precede it
    let mut a: usize = 0;
    let mut found_start = false;
    while !found_start && a < n
        invariant
            a <= n,
            n == lines@.len(),
            lines_dv == lines.deep_view(),
            lines_dv == split_char_spec(s@, '\n'),
            lines_dv.len() == n,
            forall|j: int| 0 <= j < a ==> trim_spec(#[trigger] lines_dv[j]).len() == 0,
            forall|j: int| 0 <= j < a ==> trim_spec(#[trigger] lines_dv[j]) != "@startuml"@,
            found_start ==> a < n && trim_spec(lines_dv[a as int]) == "@startuml"@,
        decreases n - a, (if found_start { 0int } else { 1int }),
    {
        proof {
            assert(lines_dv[a as int] == lines@[a as int]@);
        }
        let t = trim(lines[a].as_str());
        if str_eq(t, "@startuml") {
            found_start = true;
        } else if t.unicode_len() != 0 {
            proof {
                lemma_find_tag_nonneg(lines_dv, "@startuml"@);
                lemma_find_tag_lower(lines_dv, "@startuml"@, a as int);
                let ft = find_tag(lines_dv, "@startuml"@);
                if ft < lines_dv.len() {
                    assert(!all_blank(lines_dv.take(ft))) by {
                        assert(trim_spec(lines_dv.take(ft)[a as int]).len() != 0);
                    }
                }
            }
            return None;
        } else {
            a += 1;
        }
    }
    if !found_start {
        proof {
            lemma_find_tag_none(lines_dv, "@startuml"@);
        }
        return None;
    }
    proof {
        lemma_find_tag_at(lines_dv, "@startuml"@, a as int);
        assert(all_blank(lines_dv.take(a as int)));
    }
    let ghost restl = lines_dv.skip(a + 1);

    // locate the @enduml tag
    let mut b: usize = a + 1;
    let mut found_end = false;
    while !found_end && b < n
        invariant
            a + 1 <= b <= n,
            a < n,
            n == lines@.len(),
            lines_dv == lines.deep_view(),
            lines_dv == split_char_spec(s@, '\n'),
            lines_dv.len() == n,
            restl == lines_dv.skip(a + 1),
            find_tag(lines_dv, "@startuml"@) == a as int,
            all_blank(lines_dv.take(a as int)),
            forall|j: int| a + 1 <= j < b ==> trim_spec(#[trigger] lines_dv[j]) != "@enduml"@,
            found_end ==> b < n && trim_spec(lines_dv[b as int]) == "@enduml"@,
        decreases n - b, (if found_end { 0int } else { 1int }),
    {
        proof {
            assert(lines_dv[b as int] == lines@[b as int]@);
        }
        let t = trim(lines[b].as_str());
        if str_eq(t, "@enduml") {
            found_end = true;
        } else {
            b += 1;
        }
    }
    if !found_end {
        proof {
            assert forall|j: int|
                0 <= j < restl.len() implies trim_spec(#[trigger] restl[j]) != "@enduml"@ by {
                assert(restl[j] == lines_dv[a + 1 + j]);
            }
            lemma_find_tag_none(restl, "@enduml"@);
        }
        return None;
    }
    let ghost brel = b - (a + 1);
    proof {
        assert(restl[brel as int] == lines_dv[b as int]);
        assert forall|j: int|
            0 <= j < brel implies trim_spec(#[trigger] restl[j]) != "@enduml"@ by {
            assert(restl[j] == lines_dv[a + 1 + j]);
        }
        lemma_find_tag_at(restl, "@enduml"@, brel as int);
    }

    // only blank lines may follow @enduml
    let mut w: usize = b + 1;
    while w < n
        invariant
            b + 1 <= w <= n,
            a < b < n,
            n == lines@.len(),
            lines_dv == lines.deep_view(),
            lines_dv == split_char_spec(s@, '\n'),
            lines_dv.len() == n,
            restl == lines_dv.skip(a + 1),
            brel == b - (a + 1),
            find_tag(lines_dv, "@startuml"@) == a as int,
            all_blank(lines_dv.take(a as int)),
            find_tag(restl, "@enduml"@) == brel,
            forall|j: int| b + 1 <= j < w ==> trim_spec(#[trigger] lines_dv[j]).len() == 0,
        decreases n - w,
    {
        proof {
            assert(lines_dv[w as int] == lines@[w as int]@);
        }
        let t = trim(lines[w].as_str());
        if t.unicode_len() != 0 {
            proof {
                let tr = restl.skip(brel + 1);
                assert(!all_blank(tr)) by {
                    let q = w - (b + 1);
                    assert(tr.len() == n - (b + 1));
                    assert(tr[q] == restl[brel + 1 + q]);
                    assert(restl[brel + 1 + q] == lines_dv[a + 1 + brel + 1 + q]);
                    assert(a + 1 + brel + 1 + q == w as int);
                    assert(trim_spec(tr[q]).len() != 0);
                }
            }
            return None;
        }
        w += 1;
    }
    proof {
        assert(all_blank(restl.skip(brel + 1))) by {
            assert forall|j: int|
                0 <= j < restl.skip(brel + 1).len() implies trim_spec(
                #[trigger] restl.skip(brel + 1)[j],
            ).len() == 0 by {
                assert(restl.skip(brel + 1)[j] == lines_dv[b + 1 + j]);
            }
        }
    }

    // fold the content lines
    let ghost content = restl.take(brel as int);
    let mut pk: Vec<String> = Vec::new();
    let mut pv: Vec<String> = Vec::new();
    let mut known: Vec<String> = Vec::new();
    let mut events: Vec<GraphEvent> = Vec::new();
    events.push(GraphEvent::BatchStart);
    let mut seqno: u32 = 0;
    let mut depth: usize = 0;
    let ghost mut stv: PumlV = puml_init();
    proof {
        assert(content.take(0) =~= Seq::<Seq<char>>::empty());
        assert(stv == puml_fold(puml_init(), content.take(0)));
        assert(events.deep_view() =~= seq![EventV::BatchStart]);
        assert(known.deep_view() =~= Seq::<Seq<char>>::empty());
    }
    let mut j: usize = a + 1;
    while j < b
        invariant
            a + 1 <= j <= b,
            b < n,
            n == lines@.len(),
            lines_dv == lines.deep_view(),
            lines_dv == split_char_spec(s@, '\n'),
            lines_dv.len() == n,
            restl == lines_dv.skip(a + 1),
            content == restl.take(brel as int),
            brel == b - (a + 1),
            find_tag(lines_dv, "@startuml"@) == a as int,
            all_blank(lines_dv.take(a as int)),
            find_tag(restl, "@enduml"@) == brel,
            all_blank(restl.skip(brel + 1)),
            stv == puml_fold(puml_init(), content.take(j - (a + 1))),
            !stv.failed,
            stv.depth == depth as int,
            depth <= j,
            stv.seqno == seqno,
            stv.events == events.deep_view(),
            stv.participants.len() == pk@.len(),
            pk@.len() == pv@.len(),
            forall|i: int|
                0 <= i < pk@.len() ==> (#[trigger] stv.participants[i]) == (pk@[i]@, pv@[i]@),
            stv.known == known.deep_view(),
        decreases b - j,
    {
        let ghost pre = stv;
        let ghost rawv = lines_dv[j as int];
        proof {
            assert(lines_dv[j as int] == lines@[j as int]@);
            assert(content[j - (a + 1)] == rawv);
            assert(content.take(j - (a + 1) + 1).drop_last() =~= content.take(j - (a + 1)));
            assert(content.take(j - (a + 1) + 1).last() == rawv);
            stv = puml_line_step(pre, rawv);
        }
        let cls = classify_line_exec(lines[j].as_str());
        match cls {
            LineK::Blank => {},
            LineK::Comment => {},
            LineK::Divider => {},
            LineK::Note => {},
            LineK::Activation => {},
            LineK::BlockElse => {},
            LineK::BlockOpen => {
                depth += 1;
            },
            LineK::BlockClose => {
                if depth == 0 {
                    proof {
                        assert(stv.failed);
                        lemma_fold_failed_monotone(puml_init(), content, j - (a + 1) + 1);
                    }
                    return None;
                }
                depth -= 1;
            },
            LineK::Bad => {
                proof {
                    assert(stv.failed);
                    lemma_fold_failed_monotone(puml_init(), content, j - (a + 1) + 1);
                }
                return None;
            },
            LineK::Participant(tag, id, al) => {
                let ghost idv = id@;
                let name = match &al {
                    Some(x) => x.clone(),
                    None => id.clone(),
                };
                match &al {
                    Some(x) => {
                        let ghost pk_pre = pk@;
                        let ghost pv_pre = pv@;
                        let ki = find_key_exec(&pk, x.as_str(), Ghost(pre.participants));
                        if ki < pk.len() {
                            pv.remove(ki);
                            pv.insert(ki, id.clone());
                            proof {
                                assert(pv@ =~= pv_pre.update(ki as int, id));
                                assert forall|i: int|
                                    0 <= i < pk@.len() implies (#[trigger] stv.participants[i]) == (
                                    pk@[i]@,
                                    pv@[i]@,
                                ) by {
                                    if i != ki {
                                        assert(stv.participants[i] == pre.participants[i]);
                                        assert(pv@[i] == pv_pre[i]);
                                    } else {
                                        assert(pk@[i]@ == x@);
                                    }
                                }
                            }
                        } else {
                            pk.push(x.clone());
                            pv.push(id.clone());
                            proof {
                                assert forall|i: int|
                                    0 <= i < pk@.len() implies (#[trigger] stv.participants[i]) == (
                                    pk@[i]@,
                                    pv@[i]@,
                                ) by {
                                    if i < pk_pre.len() {
                                        assert(stv.participants[i] == pre.participants[i]);
                                        assert(pk@[i] == pk_pre[i]);
                                        assert(pv@[i] == pv_pre[i]);
                                    }
                                }
                            }
                        }
                    },
                    None => {},
                }
                let kni = find_str_exec(&known, id.as_str());
                if kni >= known.len() {
                    let ghost kn_pre = known.deep_view();
                    known.push(id.clone());
                    proof {
                        assert(known.deep_view() =~= kn_pre.push(idv));
                    }
                }
                let ghost ev_pre = events.deep_view();
                events.push(
                    GraphEvent::AddNode {
                        id,
                        info: EventNodeInfo { name, node_type: Some(tag), level: 0 },
                    },
                );
                proof {
                    assert(events.deep_view() =~= ev_pre.push(
                        EventV::AddNode {
                            id: idv,
                            info: NodeInfoV {
                                name: match al.deep_view() {
                                    Some(av) => av,
                                    None => idv,
                                },
                                node_type: Some(tag@),
                                level: 0,
                            },
                        },
                    ));
                    assert(stv.events =~= events.deep_view());
                    assert(stv.events == events.deep_view());
                }
            },
            LineK::Message(f, t, kind, rev, lbl) => {
                let (af, at2) = if rev {
                    (t, f)
                } else {
                    (f, t)
                };
                let ghost afv = af@;
                let ghost atv = at2@;
                let ki = find_key_exec(&pk, af.as_str(), Ghost(pre.participants));
                let fid = if ki < pk.len() {
                    pv[ki].clone()
                } else {
                    af.clone()
                };
                let kt2 = find_key_exec(&pk, at2.as_str(), Ghost(pre.participants));
                let tid = if kt2 < pk.len() {
                    pv[kt2].clone()
                } else {
                    at2.clone()
                };
                let ghost fidv = fid@;
                let ghost tidv = tid@;
                proof {
                    assert(fidv == (match assoc_get(pre.participants, afv) {
                        Some(x) => x,
                        None => afv,
                    }));
                    assert(tidv == (match assoc_get(pre.participants, atv) {
                        Some(x) => x,
                        None => atv,
                    }));
                }
                let ghost st1 = if !has_str(pre.known, fidv) {
                    PumlV {
                        known: pre.known.push(fidv),
                        events: pre.events.push(EventV::AddNode { id: fidv, info: auto_info(afv) }),
                        ..pre
                    }
                } else {
                    pre
                };
                let kf = find_str_exec(&known, fid.as_str());
                if kf >= known.len() {
                    let ghost kn_pre = known.deep_view();
                    let ghost ev_pre = events.deep_view();
                    known.push(fid.clone());
                    events.push(
                        GraphEvent::AddNode {
                            id: fid.clone(),
                            info: EventNodeInfo {
                                name: af.clone(),
                                node_type: Some(String::from_str("actor:participant")),
                                level: 0,
                            },
                        },
                    );
                    proof {
                        assert(known.deep_view() =~= kn_pre.push(fidv));
                        assert(events.deep_view() =~= ev_pre.push(
                            EventV::AddNode { id: fidv, info: auto_info(afv) },
                        ));
                    }
                }
                proof {
                    assert(st1.known == known.deep_view());
                    assert(st1.events == events.deep_view());
                }
                let ghost st2 = if !has_str(st1.known, tidv) {
                    PumlV {
                        known: st1.known.push(tidv),
                        events: st1.events.push(EventV::AddNode { id: tidv, info: auto_info(atv) }),
                        ..st1
                    }
                } else {
                    st1
                };
                let kt = find_str_exec(&known, tid.as_str());
                if kt >= known.len() {
                    let ghost kn_pre = known.deep_view();
                    let ghost ev_pre = events.deep_view();
                    known.push(tid.clone());
                    events.push(
                        GraphEvent::AddNode {
                            id: tid.clone(),
                            info: EventNodeInfo {
                                name: at2.clone(),
                                node_type: Some(String::from_str("actor:participant")),
                                level: 0,
                            },
                        },
                    );
                    proof {
                        assert(known.deep_view() =~= kn_pre.push(tidv));
                        assert(events.deep_view() =~= ev_pre.push(
                            EventV::AddNode { id: tidv, info: auto_info(atv) },
                        ));
                    }
                }
                proof {
                    assert(st2.known == known.deep_view());
                    assert(st2.events == events.deep_view());
                }
                let ghost ev_pre = events.deep_view();
                events.push(
                    GraphEvent::AddRichEdge {
                        from: fid,
                        to: tid,
                        info: EventEdgeInfo {
                            label: lbl,
                            edge_type: Some(kind_tag_exec(kind)),
                            sequence: Some(seqno),
                        },
                    },
                );
                if seqno < 0xffff_ffff {
                    seqno += 1;
                }
                proof {
                    assert(events.deep_view() =~= ev_pre.push(
                        EventV::AddRichEdge {
                            from: fidv,
                            to: tidv,
                            info: EdgeInfoV {
                                label: lbl.deep_view(),
                                edge_type: Some(kind_tag(kind)),
                                sequence: Some(pre.seqno),
                            },
                        },
                    ));
                    assert(stv.events =~= events.deep_view());
                    assert(stv.events == events.deep_view());
                    assert(stv.known == known.deep_view());
                }
            },
        }
        j += 1;
    }
    proof {
        assert(content.take(j - (a + 1)) =~= content);
        assert(stv == puml_fold(puml_init(), content));
    }
    if depth != 0 {
        return None;
    }
    let ghost ev_pre = events.deep_view();
    events.push(GraphEvent::BatchEnd);
    proof {
        assert(events.deep_view() =~= ev_pre.push(EventV::BatchEnd));
        assert(puml_parse_spec(s@) == Some(events.deep_view()));
    }
    Some(events)
}

/// Source for PlantUML format diagrams.
pub struct PlantUMLSource {
    content: String,
}

impl View for PlantUMLSource {
    type V = Seq<char>;

    closed spec fn view(&self) -> Seq<char> {
        self.content@
    }
}

impl PlantUMLSource {
    /// Creates a new PlantUML source from content.
    pub fn new(content: String) -> (r: PlantUMLSource)
        ensures
            r@ == content@,
    {
        PlantUMLSource { content }
    }

    /// Creates a new PlantUML source from a string slice.
    pub fn from_content(content: &str) -> (r: PlantUMLSource)
        ensures
            r@ == content@,
    {
        PlantUMLSource::new(content.to_owned())
    }
}

impl GraphEventSource for PlantUMLSource {
    open spec fn name_spec(&self) -> Seq<char> {
        "PlantUML"@
    }

    /// PlantUML parsing is strict on structure: a source denotes an event
    /// sequence only when its document is structurally valid.
    open spec fn events_spec(&self) -> Option<Seq<EventV>> {
        puml_parse_spec(self@)
    }

    fn source_name(&self) -> (r: &'static str) {
        "PlantUML"
    }

    fn events(&self) -> (r: Result<Vec<GraphEvent>, SourceError>) {
        match puml_events_exec(self.content.as_str()) {
            Some(v) => Ok(v),
            None => Err(
                SourceError::ParseError(
                    String::from_str("structurally invalid PlantUML sequence diagram"),
                ),
            ),
        }
    }
}


/// Every transition only appends to the emitted event sequence.
proof fn lemma_step_extends_events(st: PumlV, raw: Seq<char>)
    ensures
        puml_line_step(st, raw).events.len() >= st.events.len(),
        forall|i: int|
            0 <= i < st.events.len() ==> #[trigger] puml_line_step(st, raw).events[i]
                == st.events[i],
{
}

proof fn lemma_fold_extends_events(st: PumlV, lines: Seq<Seq<char>>)
    ensures
        puml_fold(st, lines).events.len() >= st.events.len(),
        forall|i: int|
            0 <= i < st.events.len() ==> #[trigger] puml_fold(st, lines).events[i]
                == st.events[i],
    decreases lines.len(),
{
    if lines.len() > 0 {
        lemma_fold_extends_events(st, lines.drop_last());
        lemma_step_extends_events(puml_fold(st, lines.drop_last()), lines.last());
    }
}

/// The event stream a structurally valid PlantUML document denotes is always
/// wrapped in a single outer batch, so the state machine applies the whole
/// document atomically.
pub proof fn lemma_puml_events_bracketed(s: Seq<char>)
    requires
        puml_parse_spec(s) is Some,
    ensures
        puml_parse_spec(s).unwrap().len() >= 2,
        puml_parse_spec(s).unwrap()[0] is BatchStart,
        puml_parse_spec(s).unwrap().last() is BatchEnd,
{
    let lines = split_char_spec(s, '\n');
    let a = find_tag(lines, "@startuml"@);
    let restl = lines.skip(a + 1);
    let b = find_tag(restl, "@enduml"@);
    let st = puml_fold(puml_init(), restl.take(b));
    lemma_fold_extends_events(puml_init(), restl.take(b));
    assert(puml_init().events[0] is BatchStart);
    assert(st.events[0] is BatchStart);
}

} // verus!
