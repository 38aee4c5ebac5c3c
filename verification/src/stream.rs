//! A source's chunk stream as plain values: the calls a stream makes, in order,
//! and where its generated code ends.
use crate::mapping::{GeneratedInfo, Mapping};
use crate::to_json::SourceMap;
use vstd::prelude::*;

verus! {

/// Options of a chunk stream: whether column positions are kept, and whether
/// only the final positions are wanted (chunk text is then dropped).
#[derive(Clone, Copy, Debug, PartialEq, Eq, Structural)]
pub struct MapOptions {
    pub columns: bool,
    pub final_source: bool,
}

impl MapOptions {
    pub fn new(columns: bool) -> (r: Self)
        ensures
            r.columns == columns,
            !r.final_source,
    {
        MapOptions { columns, final_source: false }
    }

    pub fn default() -> (r: Self)
        ensures
            r.columns,
            !r.final_source,
    {
        MapOptions { columns: true, final_source: false }
    }
}

/// One call of a chunk stream: a chunk of generated code with its mapping, a
/// source with its index in the stream and its content, or a name with its index.
#[derive(Clone, Debug)]
pub enum StreamEvent {
    Chunk(Option<String>, Mapping),
    Source(u32, String, Option<String>),
    Name(u32, String),
}

/// [`StreamEvent`] with its strings as character sequences.
pub enum EventView {
    Chunk(Option<Seq<char>>, Mapping),
    Source(u32, Seq<char>, Option<Seq<char>>),
    Name(u32, Seq<char>),
}

pub open spec fn opt_str_view(s: Option<String>) -> Option<Seq<char>> {
    match s {
        Some(s) => Some(s@),
        None => None,
    }
}

impl View for StreamEvent {
    type V = EventView;

    open spec fn view(&self) -> EventView {
        match self {
            StreamEvent::Chunk(c, m) => EventView::Chunk(opt_str_view(*c), *m),
            StreamEvent::Source(i, s, c) => EventView::Source(*i, s@, opt_str_view(*c)),
            StreamEvent::Name(i, n) => EventView::Name(*i, n@),
        }
    }
}

/// All calls of a chunk stream, in order, and where its generated code ends.
#[derive(Clone, Debug)]
pub struct StreamOutput {
    pub events: Vec<StreamEvent>,
    pub info: GeneratedInfo,
}

pub struct StreamView {
    pub events: Seq<EventView>,
    pub info: GeneratedInfo,
}

impl View for StreamOutput {
    type V = StreamView;

    open spec fn view(&self) -> StreamView {
        StreamView { events: self.events@.map_values(|e: StreamEvent| e@), info: self.info }
    }
}

pub fn clone_opt_string(s: &Option<String>) -> (r: Option<String>)
    ensures
        opt_str_view(r) == opt_str_view(*s),
{
    match s {
        Some(s) => Some(s.clone()),
        None => None,
    }
}

pub fn clone_event(e: &StreamEvent) -> (r: StreamEvent)
    ensures
        r@ == e@,
{
    match e {
        StreamEvent::Chunk(c, m) => StreamEvent::Chunk(clone_opt_string(c), *m),
        StreamEvent::Source(i, s, c) => StreamEvent::Source(*i, s.clone(), clone_opt_string(c)),
        StreamEvent::Name(i, n) => StreamEvent::Name(*i, n.clone()),
    }
}

/// A position in generated code, counted from 0: where a section starts.
#[derive(Clone, Copy, Debug, PartialEq, Eq, Structural)]
pub struct Offset {
    pub line: u32,
    pub column: u32,
}

/// One call of a section stream: where a part of the generated code starts, and
/// its source map if it has one.
pub struct SectionEntry {
    pub offset: Offset,
    pub map: Option<SourceMap>,
}

/// All calls of a section stream, in order, and where its generated code ends.
pub struct SectionOutput {
    pub sections: Vec<SectionEntry>,
    pub info: GeneratedInfo,
}

pub struct SectionsView {
    pub sections: Seq<SectionEntry>,
    pub info: GeneratedInfo,
}

impl View for SectionOutput {
    type V = SectionsView;

    open spec fn view(&self) -> SectionsView {
        SectionsView { sections: self.sections@, info: self.info }
    }
}

/// A part of an index source map: its start and its source map.
pub struct Section {
    pub offset: Offset,
    pub map: SourceMap,
}

/// A source map made of sections, each with its own source map.
pub struct IndexSourceMap {
    sections: Vec<Section>,
}

impl IndexSourceMap {
    pub closed spec fn spec_sections(&self) -> Seq<Section> {
        self.sections@
    }

    pub fn new(sections: Vec<Section>) -> (r: Self)
        ensures
            r.spec_sections() == sections@,
    {
        IndexSourceMap { sections }
    }

    pub fn sections(&self) -> (r: &Vec<Section>)
        ensures
            r@ == self.spec_sections(),
    {
        &self.sections
    }
}

} // verus!
