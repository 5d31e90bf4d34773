//! Source parsers for the supported diagram dialects, the capability
//! contract they share, the format detector, and a registry of sources.

use crate::events::{EventV, GraphEvent};
use crate::strutil::{
    contains_char, contains_str, contains_sub, find_char_spec, lower_codes, str_eq_ignore_case,
    trim, trim_spec,
};
use vstd::prelude::*;

pub mod dot;
pub mod plantuml;

verus! {

/// Errors that can occur during source processing. Rejected events are not
/// errors; these are failures to produce an event sequence at all.
#[derive(Debug, Clone)]
pub enum SourceError {
    /// The format of the input could not be determined.
    UnknownFormat,
    /// The input is not valid for the source.
    InvalidInput(String),
    /// An input/output failure reported by the caller that read the text.
    IoError(String),
    /// A structural parse failure.
    ParseError(String),
}

impl SourceError {
    /// A human-readable description of the error.
    pub fn message(&self) -> (r: String)
        ensures
            match self {
                SourceError::UnknownFormat => r@ == "Unable to determine diagram format"@,
                SourceError::InvalidInput(m) => r@ == "Invalid input: "@ + m@,
                SourceError::IoError(m) => r@ == "IO error: "@ + m@,
                SourceError::ParseError(m) => r@ == "Parse error: "@ + m@,
            },
    {
        match self {
            SourceError::UnknownFormat => String::from_str("Unable to determine diagram format"),
            SourceError::InvalidInput(m) => String::from_str("Invalid input: ").concat(m.as_str()),
            SourceError::IoError(m) => String::from_str("IO error: ").concat(m.as_str()),
            SourceError::ParseError(m) => String::from_str("Parse error: ").concat(m.as_str()),
        }
    }
}

/// Capability contract of a graph event source: a name, an event sequence
/// (or a structural parse error), and whether the source can produce live
/// updates.
pub trait GraphEventSource {
    /// The name of this source kind.
    spec fn name_spec(&self) -> Seq<char>;

    /// The event sequence this source denotes, or `None` when its text has a
    /// structural parse failure.
    spec fn events_spec(&self) -> Option<Seq<EventV>>;

    /// Returns a human-readable name for this source type.
    fn source_name(&self) -> (r: &'static str)
        ensures
            r@ == self.name_spec(),
    ;

    /// Converts the source content into the event sequence it denotes, with
    /// `BatchStart` / `BatchEnd` markers around the whole document; a
    /// structural parse failure surfaces as `ParseError`.
    fn events(&self) -> (r: Result<Vec<GraphEvent>, SourceError>)
        ensures
            match r {
                Ok(evs) => self.events_spec() == Some(evs.deep_view()),
                Err(e) => self.events_spec() is None && e is ParseError,
            },
    ;

    /// Returns true if this source can handle live updates.
    fn is_live(&self) -> (r: bool)
        ensures
            r == false,
    {
        false
    }
}

/// Detects the format of diagram content, in strict priority order: a
/// PlantUML start marker classifies PlantUML; else `digraph`, `graph` or an
/// edge arrow classifies DOT; else an attribute-like bracket pair classifies
/// DOT as a fallback guess; else the format is unknown. This is a heuristic:
/// callers must treat `None` as "assume DOT" only as an explicit fallback
/// policy with a user-visible warning.
pub fn detect_format(content: &str) -> (r: Option<&'static str>)
    ensures
        ({
            let t = trim_spec(content@);
            if contains_sub(t, "@startuml"@) || contains_sub(t, "@startsequence"@) {
                r is Some && r.unwrap()@ == "plantuml"@
            } else if contains_sub(t, "digraph"@) || contains_sub(t, "graph"@) || contains_sub(
                t,
                "->"@,
            ) {
                r is Some && r.unwrap()@ == "dot"@
            } else if find_char_spec(t, '[') is Some && find_char_spec(t, ']') is Some {
                r is Some && r.unwrap()@ == "dot"@
            } else {
                r is None
            }
        }),
{
    let t = trim(content);
    if contains_str(t, "@startuml") || contains_str(t, "@startsequence") {
        return Some("plantuml");
    }
    if contains_str(t, "digraph") || contains_str(t, "graph") || contains_str(t, "->") {
        return Some("dot");
    }
    if contains_char(t, '[') && contains_char(t, ']') {
        return Some("dot");
    }
    None
}

/// A registered source: one of the supported dialects, holding its text.
pub enum DiagramSource {
    Dot(dot::DotSource),
    PlantUml(plantuml::PlantUMLSource),
}

impl GraphEventSource for DiagramSource {
    open spec fn name_spec(&self) -> Seq<char> {
        match self {
            DiagramSource::Dot(s) => s.name_spec(),
            DiagramSource::PlantUml(s) => s.name_spec(),
        }
    }

    open spec fn events_spec(&self) -> Option<Seq<EventV>> {
        match self {
            DiagramSource::Dot(s) => s.events_spec(),
            DiagramSource::PlantUml(s) => s.events_spec(),
        }
    }

    fn source_name(&self) -> (r: &'static str) {
        match self {
            DiagramSource::Dot(s) => s.source_name(),
            DiagramSource::PlantUml(s) => s.source_name(),
        }
    }

    fn events(&self) -> (r: Result<Vec<GraphEvent>, SourceError>) {
        match self {
            DiagramSource::Dot(s) => s.events(),
            DiagramSource::PlantUml(s) => s.events(),
        }
    }

    fn is_live(&self) -> (r: bool) {
        false
    }
}

/// The index of the first source whose name matches, ASCII
/// case-insensitively, or the length if none does.
pub open spec fn find_source(sources: Seq<DiagramSource>, name: Seq<char>) -> int
    decreases sources.len(),
{
    if sources.len() == 0 {
        0
    } else if lower_codes(sources[0].name_spec()) == lower_codes(name) {
        0
    } else {
        1 + find_source(sources.drop_first(), name)
    }
}

proof fn lemma_find_source_at(sources: Seq<DiagramSource>, name: Seq<char>, k: int)
    requires
        0 <= k < sources.len(),
        lower_codes(sources[k].name_spec()) == lower_codes(name),
        forall|j: int|
            0 <= j < k ==> lower_codes((#[trigger] sources[j]).name_spec()) != lower_codes(name),
    ensures
        find_source(sources, name) == k,
    decreases k,
{
    if k > 0 {
        lemma_find_source_at(sources.drop_first(), name, k - 1);
    }
}

proof fn lemma_find_source_none(sources: Seq<DiagramSource>, name: Seq<char>)
    requires
        forall|j: int|
            0 <= j < sources.len() ==> lower_codes((#[trigger] sources[j]).name_spec())
                != lower_codes(name),
    ensures
        find_source(sources, name) == sources.len(),
    decreases sources.len(),
{
    if sources.len() > 0 {
        lemma_find_source_none(sources.drop_first(), name);
    }
}

/// Registry for managing multiple event sources.
pub struct SourceRegistry {
    sources: Vec<DiagramSource>,
}

impl Default for SourceRegistry {
    fn default() -> (r: SourceRegistry)
        ensures
            r@.len() == 0,
    {
        SourceRegistry::new()
    }
}

impl View for SourceRegistry {
    type V = Seq<DiagramSource>;

    closed spec fn view(&self) -> Seq<DiagramSource> {
        self.sources@
    }
}

impl SourceRegistry {
    /// Creates a new empty registry.
    pub fn new() -> (r: SourceRegistry)
        ensures
            r@.len() == 0,
    {
        SourceRegistry { sources: Vec::new() }
    }

    /// Registers a new event source at the end of the lookup order.
    pub fn register(&mut self, source: DiagramSource)
        ensures
            final(self)@ == old(self)@.push(source),
    {
        self.sources.push(source);
    }

    /// Returns the number of registered sources.
    pub fn len(&self) -> (r: usize)
        ensures
            r == self@.len(),
    {
        self.sources.len()
    }

    /// Returns true if no sources are registered.
    pub fn is_empty(&self) -> (r: bool)
        ensures
            r == (self@.len() == 0),
    {
        self.sources.is_empty()
    }

    /// Gets the first source whose name matches, ASCII case-insensitively.
    pub fn get_source(&self, name: &str) -> (r: Option<&DiagramSource>)
        ensures
            match r {
                Some(s) => find_source(self@, name@) < self@.len() && *s == self@[find_source(
                    self@,
                    name@,
                )],
                None => find_source(self@, name@) == self@.len(),
            },
    {
        let mut i: usize = 0;
        while i < self.sources.len()
            invariant
                i <= self@.len(),
                self@.len() == self.sources@.len(),
                forall|j: int|
                    0 <= j < i ==> lower_codes((#[trigger] self@[j]).name_spec()) != lower_codes(
                        name@,
                    ),
            decreases self@.len() - i,
        {
            let s = &self.sources[i];
            if str_eq_ignore_case(s.source_name(), name) {
                proof {
                    lemma_find_source_at(self@, name@, i as int);
                }
                return Some(s);
            }
            i += 1;
        }
        proof {
            lemma_find_source_none(self@, name@);
        }
        None
    }
}

} // verus!
