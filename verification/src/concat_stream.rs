//! The chunk stream of a concatenation: the children's streams one after the
//! other, with generated positions shifted past the code before each child, and
//! source and name indices renumbered so that each source and each name is
//! announced once.
use crate::fx_map::{fx_contents, fx_get, fx_insert, fx_len, fx_new};
use crate::mapping::{GeneratedInfo, Mapping, OriginalLocation};
use crate::stream::{
    clone_opt_string, EventView, MapOptions, Offset, SectionEntry, SectionOutput, SectionsView, StreamEvent, StreamOutput,
    StreamView,
};
use rustc_hash::FxHashMap;
use vstd::hash_map::HashMapWithView;
use vstd::prelude::*;
use vstd::std_specs::hash::obeys_key_model;

verus! {

broadcast use vstd::std_specs::hash::group_hash_axioms;

/// The state of the concatenation between two calls of the children's streams.
pub struct ConcatState {
    /// Lines of generated code before the current child.
    pub line_offset: u32,
    /// Columns before the current child on its first line.
    pub column_offset: u32,
    /// The global index of every source announced so far.
    pub sources: Map<Seq<char>, u32>,
    /// The global index of every name announced so far.
    pub names: Map<Seq<char>, u32>,
    /// Whether a mapping without original must end the last child's final mapping.
    pub need_close: bool,
    /// The current child's source indices, renumbered.
    pub source_indices: Map<u32, u32>,
    /// The current child's name indices, renumbered.
    pub name_indices: Map<u32, u32>,
    /// The current child's generated line of its last chunk with a known source, or 0.
    pub last_mapping_line: u32,
    /// The calls made so far.
    pub out: Seq<EventView>,
    /// Whether every position so far stayed within `u32`.
    pub ok: bool,
}

pub open spec fn initial_concat_state() -> ConcatState {
    ConcatState {
        line_offset: 0,
        column_offset: 0,
        sources: Map::empty(),
        names: Map::empty(),
        need_close: false,
        source_indices: Map::empty(),
        name_indices: Map::empty(),
        last_mapping_line: 0,
        out: Seq::empty(),
        ok: true,
    }
}

/// The chunk without text and without original that ends a mapping at the
/// start of the current child.
pub open spec fn close_event(st: ConcatState) -> EventView {
    EventView::Chunk(
        None,
        Mapping {
            generated_line: (st.line_offset + 1) as u32,
            generated_column: st.column_offset,
            original: None,
        },
    )
}

/// A child's source index, renumbered, if the child announced it.
pub open spec fn renumbered_source(st: ConcatState, m: Mapping) -> Option<u32> {
    match m.original {
        Some(o) => if st.source_indices.dom().contains(o.source_index) {
            Some(st.source_indices[o.source_index])
        } else {
            None
        },
        None => None,
    }
}

/// A child's name index, renumbered, if the child announced it.
pub open spec fn renumbered_name(st: ConcatState, m: Mapping) -> Option<u32> {
    match m.original {
        Some(o) => match o.name_index {
            Some(n) => if st.name_indices.dom().contains(n) {
                Some(st.name_indices[n])
            } else {
                None
            },
            None => None,
        },
        None => None,
    }
}

/// The generated line of a child's mapping in the concatenation.
pub open spec fn shifted_line(st: ConcatState, m: Mapping) -> int {
    m.generated_line + st.line_offset
}

/// The generated column of a child's mapping in the concatenation: shifted on
/// the child's first line only.
pub open spec fn shifted_column(st: ConcatState, m: Mapping) -> int {
    if m.generated_line == 1 {
        m.generated_column + st.column_offset
    } else {
        m.generated_column as int
    }
}

/// A chunk of the current child.
pub open spec fn chunk_step(st: ConcatState, chunk: Option<Seq<char>>, m: Mapping, opts: MapOptions) -> ConcatState {
    let line = shifted_line(st, m);
    let column = shifted_column(st, m);
    let closing = st.need_close && (m.generated_line != 1 || m.generated_column != 0);
    let ok = st.ok && line <= u32::MAX && column <= u32::MAX && (closing ==> st.line_offset + 1
        <= u32::MAX);
    let out1 = if closing {
        st.out.push(close_event(st))
    } else {
        st.out
    };
    let rsi = renumbered_source(st, m);
    let rni = renumbered_name(st, m);
    let mapped = match m.original {
        Some(o) => Mapping {
            generated_line: line as u32,
            generated_column: column as u32,
            original: Some(
                OriginalLocation {
                    source_index: rsi.unwrap(),
                    original_line: o.original_line,
                    original_column: o.original_column,
                    name_index: rni,
                },
            ),
        },
        None => Mapping { generated_line: line as u32, generated_column: column as u32, original: None },
    };
    let unmapped = Mapping { generated_line: line as u32, generated_column: column as u32, original: None };
    let out2 = if opts.final_source {
        if rsi is Some {
            out1.push(EventView::Chunk(None, mapped))
        } else {
            out1
        }
    } else if rsi is Some {
        out1.push(EventView::Chunk(chunk, mapped))
    } else {
        out1.push(EventView::Chunk(chunk, unmapped))
    };
    ConcatState {
        need_close: false,
        last_mapping_line: if rsi is Some {
            m.generated_line
        } else {
            0
        },
        out: out2,
        ok,
        ..st
    }
}

/// A source announced by the current child: announced again, under the next free
/// global index, the first time it is seen.
pub open spec fn source_step(st: ConcatState, i: u32, source: Seq<char>, content: Option<Seq<char>>) -> ConcatState {
    if st.sources.dom().contains(source) {
        ConcatState { source_indices: st.source_indices.insert(i, st.sources[source]), ..st }
    } else {
        let g = st.sources.len() as u32;
        ConcatState {
            sources: st.sources.insert(source, g),
            source_indices: st.source_indices.insert(i, g),
            out: st.out.push(EventView::Source(g, source, content)),
            ..st
        }
    }
}

/// A name announced by the current child: announced again, under the next free
/// global index, the first time it is seen.
pub open spec fn name_step(st: ConcatState, i: u32, name: Seq<char>) -> ConcatState {
    if st.names.dom().contains(name) {
        ConcatState { name_indices: st.name_indices.insert(i, st.names[name]), ..st }
    } else {
        let g = st.names.len() as u32;
        ConcatState {
            names: st.names.insert(name, g),
            name_indices: st.name_indices.insert(i, g),
            out: st.out.push(EventView::Name(g, name)),
            ..st
        }
    }
}

pub open spec fn event_step(st: ConcatState, e: EventView, opts: MapOptions) -> ConcatState {
    match e {
        EventView::Chunk(c, m) => chunk_step(st, c, m, opts),
        EventView::Source(i, s, c) => source_step(st, i, s, c),
        EventView::Name(i, n) => name_step(st, i, n),
    }
}

pub open spec fn events_run(st: ConcatState, evs: Seq<EventView>, opts: MapOptions) -> ConcatState
    decreases evs.len(),
{
    if evs.len() == 0 {
        st
    } else {
        event_step(events_run(st, evs.drop_last(), opts), evs.last(), opts)
    }
}

/// Before a child: its own source and name indices start afresh.
pub open spec fn child_start(st: ConcatState) -> ConcatState {
    ConcatState { source_indices: Map::empty(), name_indices: Map::empty(), last_mapping_line: 0, ..st }
}

/// After a child: the pending mapping is closed if the child produced code, and
/// the offsets move past the child's code.
pub open spec fn child_end(st: ConcatState, info: GeneratedInfo, opts: MapOptions) -> ConcatState {
    let closing = st.need_close && (info.generated_line != 1 || info.generated_column != 0);
    let out = if closing {
        st.out.push(close_event(st))
    } else {
        st.out
    };
    let need_close = (!closing && st.need_close) || (opts.final_source && st.last_mapping_line
        == info.generated_line);
    let column_offset = if info.generated_line > 1 {
        info.generated_column as int
    } else {
        st.column_offset + info.generated_column
    };
    let line_offset = st.line_offset + info.generated_line - 1;
    let ok = st.ok && (closing ==> st.line_offset + 1 <= u32::MAX) && column_offset <= u32::MAX
        && info.generated_line >= 1 && line_offset <= u32::MAX;
    ConcatState {
        out,
        need_close,
        column_offset: column_offset as u32,
        line_offset: line_offset as u32,
        ok,
        ..st
    }
}

pub open spec fn child_run(st: ConcatState, child: StreamView, opts: MapOptions) -> ConcatState {
    child_end(events_run(child_start(st), child.events, opts), child.info, opts)
}

pub open spec fn children_run(children: Seq<StreamView>, opts: MapOptions) -> ConcatState
    decreases children.len(),
{
    if children.len() == 0 {
        initial_concat_state()
    } else {
        child_run(children_run(children.drop_last(), opts), children.last(), opts)
    }
}

/// The chunk stream of the concatenation of streams: a single stream is passed
/// on as it is.
pub open spec fn concat_stream(children: Seq<StreamView>, opts: MapOptions) -> StreamView {
    if children.len() == 1 {
        children[0]
    } else {
        let st = children_run(children, opts);
        StreamView {
            events: st.out,
            info: GeneratedInfo { generated_line: (st.line_offset + 1) as u32, generated_column: st.column_offset },
        }
    }
}

/// Whether every generated position of the concatenation fits in `u32`.
pub open spec fn concat_ok(children: Seq<StreamView>, opts: MapOptions) -> bool {
    children.len() == 1 || (children_run(children, opts).ok && children_run(children, opts).line_offset
        + 1 <= u32::MAX)
}

/// The children's streams as views.
pub open spec fn stream_views(children: Seq<StreamOutput>) -> Seq<StreamView> {
    children.map_values(|c: StreamOutput| c@)
}

proof fn lemma_event_step_ok(st: ConcatState, e: EventView, opts: MapOptions)
    ensures
        event_step(st, e, opts).ok ==> st.ok,
{
}

proof fn lemma_events_ok_prefix(st: ConcatState, evs: Seq<EventView>, opts: MapOptions, k: int)
    requires
        events_run(st, evs, opts).ok,
        0 <= k <= evs.len(),
    ensures
        events_run(st, evs.take(k), opts).ok,
    decreases evs.len() - k,
{
    if k < evs.len() {
        lemma_events_ok_prefix(st, evs, opts, k + 1);
        assert(evs.take(k + 1).drop_last() =~= evs.take(k));
        lemma_event_step_ok(events_run(st, evs.take(k), opts), evs[k], opts);
    } else {
        assert(evs.take(k) =~= evs);
    }
}

proof fn lemma_children_ok_prefix(children: Seq<StreamView>, opts: MapOptions, k: int)
    requires
        children_run(children, opts).ok,
        0 <= k < children.len(),
    ensures
        child_run(children_run(children.take(k), opts), children[k], opts).ok,
    decreases children.len() - k,
{
    if k + 1 < children.len() {
        lemma_children_ok_prefix(children, opts, k + 1);
        assert(children.take(k + 2).drop_last() =~= children.take(k + 1));
        assert(children.take(k + 1).drop_last() =~= children.take(k));
        let st = children_run(children.take(k + 1), opts);
        let inner = events_run(child_start(st), children[k + 1].events, opts);
        assert(inner.ok ==> child_start(st).ok) by {
            lemma_events_ok_prefix(child_start(st), children[k + 1].events, opts, 0);
            assert(children[k + 1].events.take(0) =~= Seq::<EventView>::empty());
        }
    } else {
        assert(children.take(k + 1) =~= children);
        assert(children.take(k + 1).drop_last() =~= children.take(k));
    }
}

fn clone_stream(s: &StreamOutput) -> (r: StreamOutput)
    ensures
        r@ == s@,
{
    let mut events: Vec<StreamEvent> = Vec::new();
    let mut i: usize = 0;
    while i < s.events.len()
        invariant
            i <= s.events@.len(),
            events@.map_values(|e: StreamEvent| e@) =~= s.events@.map_values(|e: StreamEvent| e@).take(
                i as int,
            ),
        decreases s.events@.len() - i,
    {
        let ghost before = events@;
        let ev = crate::stream::clone_event(&s.events[i]);
        events.push(ev);
        proof {
            assert(events@ == before.push(ev));
            assert(events@.map_values(|e: StreamEvent| e@) =~= before.map_values(|e: StreamEvent| e@).push(ev@));
        }
        i += 1;
    }
    proof {
        assert(s.events@.map_values(|e: StreamEvent| e@).take(i as int) =~= s.events@.map_values(|e: StreamEvent| e@));
    }
    StreamOutput { events, info: s.info }
}

/// The chunk stream of the concatenation of `children`, each the stream of a
/// child under `options`.
pub fn concat_chunks(children: &Vec<StreamOutput>, options: &MapOptions) -> (r: StreamOutput)
    requires
        concat_ok(stream_views(children@), *options),
    ensures
        r@ == concat_stream(stream_views(children@), *options),
{
    let ghost views = stream_views(children@);
    let opts = *options;
    if children.len() == 1 {
        return clone_stream(&children[0]);
    }
    let mut current_line_offset: u32 = 0;
    let mut current_column_offset: u32 = 0;
    let mut source_mapping: FxHashMap<String, u32> = fx_new();
    let mut name_mapping: FxHashMap<String, u32> = fx_new();
    let mut need_to_close_mapping = false;
    let mut out: Vec<StreamEvent> = Vec::new();
    let mut c: usize = 0;
    proof {
        assert(views.take(0) =~= Seq::<StreamView>::empty());
    }
    while c < children.len()
        invariant
            views == stream_views(children@),
            opts == *options,
            children@.len() != 1,
            concat_ok(views, opts),
            c <= children@.len(),
            ({
                let st = children_run(views.take(c as int), opts);
                &&& st.line_offset == current_line_offset
                &&& st.column_offset == current_column_offset
                &&& st.sources == fx_contents(source_mapping)
                &&& st.names == fx_contents(name_mapping)
                &&& st.need_close == need_to_close_mapping
                &&& st.out == out@.map_values(|e: StreamEvent| e@)
                &&& st.ok
            }),
        decreases children@.len() - c,
    {
        let ghost st0 = children_run(views.take(c as int), opts);
        let ghost cv = views[c as int];
        proof {
            lemma_children_ok_prefix(views, opts, c as int);
        }
        let child = &children[c];
        let mut source_index_mapping: HashMapWithView<u32, u32> = HashMapWithView::new();
        let mut name_index_mapping: HashMapWithView<u32, u32> = HashMapWithView::new();
        let mut last_mapping_line: u32 = 0;
        let mut e: usize = 0;
        proof {
            assert(cv.events.take(0) =~= Seq::<EventView>::empty());
            lemma_events_ok_prefix(child_start(st0), cv.events, opts, cv.events.len() as int);
        }
        while e < child.events.len()
            invariant
                views == stream_views(children@),
                opts == *options,
                c < children@.len(),
                cv == views[c as int],
                child == &children@[c as int],
                e <= child.events@.len(),
                cv.events.len() == child.events@.len(),
                events_run(child_start(st0), cv.events, opts).ok,
                ({
                    let st = events_run(child_start(st0), cv.events.take(e as int), opts);
                    &&& st.line_offset == current_line_offset
                    &&& st.column_offset == current_column_offset
                    &&& st.sources == fx_contents(source_mapping)
                    &&& st.names == fx_contents(name_mapping)
                    &&& st.need_close == need_to_close_mapping
                    &&& st.source_indices == source_index_mapping@
                    &&& st.name_indices == name_index_mapping@
                    &&& st.last_mapping_line == last_mapping_line
                    &&& st.out == out@.map_values(|e: StreamEvent| e@)
                    &&& st.ok
                }),
            decreases child.events@.len() - e,
        {
            let ghost st = events_run(child_start(st0), cv.events.take(e as int), opts);
            proof {
                lemma_events_ok_prefix(child_start(st0), cv.events, opts, e + 1);
                assert(cv.events.take(e + 1).drop_last() =~= cv.events.take(e as int));
                assert(cv.events[e as int] == child.events@[e as int]@);
            }
            let ghost out_before = out@.map_values(|e: StreamEvent| e@);
            match &child.events[e] {
                StreamEvent::Chunk(chunk, mapping) => {
                    let line = mapping.generated_line + current_line_offset;
                    let column = if mapping.generated_line == 1 {
                        mapping.generated_column + current_column_offset
                    } else {
                        mapping.generated_column
                    };
                    if need_to_close_mapping {
                        if mapping.generated_line != 1 || mapping.generated_column != 0 {
                            out.push(
                                StreamEvent::Chunk(
                                    None,
                                    Mapping {
                                        generated_line: current_line_offset + 1,
                                        generated_column: current_column_offset,
                                        original: None,
                                    },
                                ),
                            );
                        }
                        need_to_close_mapping = false;
                    }
                    let result_source_index: Option<u32> = match &mapping.original {
                        Some(original) => match source_index_mapping.get(&original.source_index) {
                            Some(v) => Some(*v),
                            None => None,
                        },
                        None => None,
                    };
                    let result_name_index: Option<u32> = match &mapping.original {
                        Some(original) => match original.name_index {
                            Some(name_index) => match name_index_mapping.get(&name_index) {
                                Some(v) => Some(*v),
                                None => None,
                            },
                            None => None,
                        },
                        None => None,
                    };
                    last_mapping_line = if result_source_index.is_none() {
                        0
                    } else {
                        mapping.generated_line
                    };
                    if options.final_source {
                        if let (Some(result_source_index), Some(original)) = (result_source_index, &mapping.original) {
                            out.push(
                                StreamEvent::Chunk(
                                    None,
                                    Mapping {
                                        generated_line: line,
                                        generated_column: column,
                                        original: Some(
                                            OriginalLocation {
                                                source_index: result_source_index,
                                                original_line: original.original_line,
                                                original_column: original.original_column,
                                                name_index: result_name_index,
                                            },
                                        ),
                                    },
                                ),
                            );
                        }
                    } else if let (Some(result_source_index), Some(original)) = (result_source_index, &mapping.original) {
                        out.push(
                            StreamEvent::Chunk(
                                clone_opt_string(chunk),
                                Mapping {
                                    generated_line: line,
                                    generated_column: column,
                                    original: Some(
                                        OriginalLocation {
                                            source_index: result_source_index,
                                            original_line: original.original_line,
                                            original_column: original.original_column,
                                            name_index: result_name_index,
                                        },
                                    ),
                                },
                            ),
                        );
                    } else {
                        out.push(
                            StreamEvent::Chunk(
                                clone_opt_string(chunk),
                                Mapping { generated_line: line, generated_column: column, original: None },
                            ),
                        );
                    }
                },
                StreamEvent::Source(i, source, source_content) => {
                    let mut global_index = fx_get(&source_mapping, source.as_str());
                    if global_index.is_none() {
                        let len = #[verifier::truncate] (fx_len(&source_mapping) as u32);
                        fx_insert(&mut source_mapping, source.clone(), len);
                        out.push(StreamEvent::Source(len, source.clone(), clone_opt_string(source_content)));
                        global_index = Some(len);
                    }
                    source_index_mapping.insert(*i, global_index.unwrap());
                },
                StreamEvent::Name(i, name) => {
                    let mut global_index = fx_get(&name_mapping, name.as_str());
                    if global_index.is_none() {
                        let len = #[verifier::truncate] (fx_len(&name_mapping) as u32);
                        fx_insert(&mut name_mapping, name.clone(), len);
                        out.push(StreamEvent::Name(len, name.clone()));
                        global_index = Some(len);
                    }
                    name_index_mapping.insert(*i, global_index.unwrap());
                },
            }
            proof {
                let st1 = events_run(child_start(st0), cv.events.take(e + 1), opts);
                assert(st1.out =~= out@.map_values(|e: StreamEvent| e@));
            }
            e += 1;
        }
        proof {
            assert(cv.events.take(e as int) =~= cv.events);
        }
        let generated_line = child.info.generated_line;
        let generated_column = child.info.generated_column;
        if need_to_close_mapping && (generated_line != 1 || generated_column != 0) {
            out.push(
                StreamEvent::Chunk(
                    None,
                    Mapping {
                        generated_line: current_line_offset + 1,
                        generated_column: current_column_offset,
                        original: None,
                    },
                ),
            );
            need_to_close_mapping = false;
        }
        if generated_line > 1 {
            current_column_offset = generated_column;
        } else {
            current_column_offset += generated_column;
        }
        need_to_close_mapping = need_to_close_mapping || (options.final_source && last_mapping_line == generated_line);
        current_line_offset += generated_line - 1;
        proof {
            assert(views.take(c + 1).drop_last() =~= views.take(c as int));
            let st1 = children_run(views.take(c + 1), opts);
            assert(st1.out =~= out@.map_values(|e: StreamEvent| e@));
        }
        c += 1;
    }
    proof {
        assert(views.take(c as int) =~= views);
    }
    let r = StreamOutput {
        events: out,
        info: GeneratedInfo { generated_line: current_line_offset + 1, generated_column: current_column_offset },
    };
    proof {
        assert(r@.events =~= concat_stream(views, opts).events);
    }
    r
}

/// No source is announced twice.
pub open spec fn sources_announced_once(out: Seq<EventView>) -> bool {
    forall|p: int, q: int|
        0 <= p < q < out.len() && #[trigger] out[p] is Source && #[trigger] out[q] is Source ==> out[p]->Source_1
            != out[q]->Source_1
}

/// Every chunk whose mapping has an original refers to a source index announced
/// before it.
pub open spec fn mapped_sources_announced(out: Seq<EventView>) -> bool {
    forall|q: int|
        0 <= q < out.len() && #[trigger] out[q] is Chunk && out[q]->Chunk_1.original is Some ==> exists|p: int|
            0 <= p < q && #[trigger] out[p] is Source && out[p]->Source_0
                == out[q]->Chunk_1.original.unwrap().source_index
}

/// What the concatenation keeps true of its sources between two calls.
pub open spec fn sources_inv(st: ConcatState) -> bool {
    &&& st.sources.dom().finite()
    &&& forall|n: Seq<char>| #[trigger] st.sources.dom().contains(n) ==> exists|p: int|
        0 <= p < st.out.len() && #[trigger] st.out[p] is Source && st.out[p]->Source_0 == st.sources[n]
    &&& forall|p: int| 0 <= p < st.out.len() && #[trigger] st.out[p] is Source ==> st.sources.dom().contains(
        st.out[p]->Source_1,
    )
    &&& forall|i: u32| #[trigger] st.source_indices.dom().contains(i) ==> exists|n: Seq<char>|
        #[trigger] st.sources.dom().contains(n) && st.sources[n] == st.source_indices[i]
    &&& sources_announced_once(st.out)
    &&& mapped_sources_announced(st.out)
}

proof fn lemma_event_step_sources_inv(st: ConcatState, e: EventView, opts: MapOptions)
    requires
        sources_inv(st),
    ensures
        sources_inv(event_step(st, e, opts)),
{
    let st2 = event_step(st, e, opts);
    assert forall|p: int| 0 <= p < st.out.len() implies #[trigger] st2.out[p] == st.out[p] by {}
    match e {
        EventView::Chunk(c, m) => {
            let closing = st.need_close && (m.generated_line != 1 || m.generated_column != 0);
            let out1 = if closing {
                st.out.push(close_event(st))
            } else {
                st.out
            };
            assert forall|p: int| 0 <= p < out1.len() implies #[trigger] st2.out[p] == out1[p] by {}
            assert forall|p: int| st.out.len() <= p < st2.out.len() implies #[trigger] st2.out[p] is Chunk by {}
            assert forall|p: int| 0 <= p < st2.out.len() && #[trigger] st2.out[p] is Source implies st2.sources.dom().contains(
                st2.out[p]->Source_1) by {
                assert(st2.out[p] == st.out[p]);
            }
            assert forall|p: int, q: int|
                0 <= p < q < st2.out.len() && #[trigger] st2.out[p] is Source && #[trigger] st2.out[q] is Source implies st2.out[p]->Source_1
                    != st2.out[q]->Source_1 by {
                assert(st2.out[p] == st.out[p]);
                assert(st2.out[q] == st.out[q]);
            }
            assert forall|n: Seq<char>| #[trigger] st2.sources.dom().contains(n) implies exists|p: int|
                0 <= p < st2.out.len() && #[trigger] st2.out[p] is Source && st2.out[p]->Source_0 == st2.sources[n] by {
                let p = choose|p: int| 0 <= p < st.out.len() && #[trigger] st.out[p] is Source && st.out[p]->Source_0 == st.sources[n];
                assert(st2.out[p] == st.out[p]);
            }
            assert forall|q: int|
                0 <= q < st2.out.len() && #[trigger] st2.out[q] is Chunk && st2.out[q]->Chunk_1.original is Some implies exists|p: int|
                    0 <= p < q && #[trigger] st2.out[p] is Source && st2.out[p]->Source_0
                        == st2.out[q]->Chunk_1.original.unwrap().source_index by {
                if q < st.out.len() {
                    assert(st2.out[q] == st.out[q]);
                    let p = choose|p: int| 0 <= p < q && #[trigger] st.out[p] is Source && st.out[p]->Source_0
                        == st.out[q]->Chunk_1.original.unwrap().source_index;
                    assert(st2.out[p] == st.out[p]);
                } else if q < out1.len() {
                } else {
                    let o = m.original.unwrap();
                    let g = st.source_indices[o.source_index];
                    let n = choose|n: Seq<char>| #[trigger] st.sources.dom().contains(n) && st.sources[n] == g;
                    let p = choose|p: int| 0 <= p < st.out.len() && #[trigger] st.out[p] is Source && st.out[p]->Source_0 == st.sources[n];
                    assert(st2.out[p] == st.out[p]);
                }
            }
        },
        EventView::Source(i, src, content) => {
            if st.sources.dom().contains(src) {
                assert forall|j: u32| #[trigger] st2.source_indices.dom().contains(j) implies exists|n: Seq<char>|
                    #[trigger] st2.sources.dom().contains(n) && st2.sources[n] == st2.source_indices[j] by {
                    if j != i {
                        assert(st.source_indices.dom().contains(j));
                        let n = choose|n: Seq<char>| #[trigger] st.sources.dom().contains(n) && st.sources[n] == st.source_indices[j];
                        assert(st2.sources.dom().contains(n) && st2.sources[n] == st2.source_indices[j]);
                    } else {
                        assert(st2.sources.dom().contains(src));
                        assert(st2.sources[src] == st2.source_indices[j]);
                    }
                }
            } else {
                let g = st.sources.len() as u32;
                let last = st.out.len() as int;
                assert(st2.out[last] == EventView::Source(g, src, content));
                assert forall|n: Seq<char>| #[trigger] st2.sources.dom().contains(n) implies exists|p: int|
                    0 <= p < st2.out.len() && #[trigger] st2.out[p] is Source && st2.out[p]->Source_0 == st2.sources[n] by {
                    if n == src {
                        assert(st2.out[last] is Source);
                    } else {
                        let p = choose|p: int| 0 <= p < st.out.len() && #[trigger] st.out[p] is Source && st.out[p]->Source_0 == st.sources[n];
                        assert(st2.out[p] == st.out[p]);
                    }
                }
                assert forall|p: int| 0 <= p < st2.out.len() && #[trigger] st2.out[p] is Source implies st2.sources.dom().contains(
                    st2.out[p]->Source_1) by {
                    if p < last {
                        assert(st2.out[p] == st.out[p]);
                    }
                }
                assert forall|j: u32| #[trigger] st2.source_indices.dom().contains(j) implies exists|n: Seq<char>|
                    #[trigger] st2.sources.dom().contains(n) && st2.sources[n] == st2.source_indices[j] by {
                    if j != i {
                        assert(st.source_indices.dom().contains(j));
                        let n = choose|n: Seq<char>| #[trigger] st.sources.dom().contains(n) && st.sources[n] == st.source_indices[j];
                        assert(st2.sources.dom().contains(n));
                        assert(st2.sources[n] == st.sources[n]);
                    } else {
                        assert(st2.sources.dom().contains(src));
                        assert(st2.sources[src] == st2.source_indices[j]);
                    }
                }
                assert forall|p: int, q: int|
                    0 <= p < q < st2.out.len() && #[trigger] st2.out[p] is Source && #[trigger] st2.out[q] is Source implies st2.out[p]->Source_1
                        != st2.out[q]->Source_1 by {
                    assert(st2.out[p] == st.out[p]);
                    if q < last {
                        assert(st2.out[q] == st.out[q]);
                    } else {
                        assert(st.sources.dom().contains(st.out[p]->Source_1));
                    }
                }
                assert forall|q: int|
                    0 <= q < st2.out.len() && #[trigger] st2.out[q] is Chunk && st2.out[q]->Chunk_1.original is Some implies exists|p: int|
                        0 <= p < q && #[trigger] st2.out[p] is Source && st2.out[p]->Source_0
                            == st2.out[q]->Chunk_1.original.unwrap().source_index by {
                    assert(q < last);
                    assert(st2.out[q] == st.out[q]);
                    let p = choose|p: int| 0 <= p < q && #[trigger] st.out[p] is Source && st.out[p]->Source_0
                        == st.out[q]->Chunk_1.original.unwrap().source_index;
                    assert(st2.out[p] == st.out[p]);
                }
            }
        },
        EventView::Name(i, name) => {
            let last = st.out.len() as int;
            assert forall|n: Seq<char>| #[trigger] st2.sources.dom().contains(n) implies exists|p: int|
                0 <= p < st2.out.len() && #[trigger] st2.out[p] is Source && st2.out[p]->Source_0 == st2.sources[n] by {
                let p = choose|p: int| 0 <= p < st.out.len() && #[trigger] st.out[p] is Source && st.out[p]->Source_0 == st.sources[n];
                assert(st2.out[p] == st.out[p]);
            }
            assert forall|q: int|
                0 <= q < st2.out.len() && #[trigger] st2.out[q] is Chunk && st2.out[q]->Chunk_1.original is Some implies exists|p: int|
                    0 <= p < q && #[trigger] st2.out[p] is Source && st2.out[p]->Source_0
                        == st2.out[q]->Chunk_1.original.unwrap().source_index by {
                assert(q < last);
                assert(st2.out[q] == st.out[q]);
                let p = choose|p: int| 0 <= p < q && #[trigger] st.out[p] is Source && st.out[p]->Source_0
                    == st.out[q]->Chunk_1.original.unwrap().source_index;
                assert(st2.out[p] == st.out[p]);
            }
        },
    }
}

proof fn lemma_events_run_sources_inv(st: ConcatState, evs: Seq<EventView>, opts: MapOptions)
    requires
        sources_inv(st),
    ensures
        sources_inv(events_run(st, evs, opts)),
    decreases evs.len(),
{
    if evs.len() > 0 {
        lemma_events_run_sources_inv(st, evs.drop_last(), opts);
        lemma_event_step_sources_inv(events_run(st, evs.drop_last(), opts), evs.last(), opts);
    }
}

proof fn lemma_child_end_sources_inv(st: ConcatState, info: GeneratedInfo, opts: MapOptions)
    requires
        sources_inv(st),
    ensures
        sources_inv(child_end(st, info, opts)),
{
    let st2 = child_end(st, info, opts);
    let last = st.out.len() as int;
    assert forall|p: int| 0 <= p < last implies #[trigger] st2.out[p] == st.out[p] by {}
    assert forall|p: int| last <= p < st2.out.len() implies #[trigger] st2.out[p] is Chunk
        && st2.out[p]->Chunk_1.original is None by {}
    assert forall|n: Seq<char>| #[trigger] st2.sources.dom().contains(n) implies exists|p: int|
        0 <= p < st2.out.len() && #[trigger] st2.out[p] is Source && st2.out[p]->Source_0 == st2.sources[n] by {
        let p = choose|p: int| 0 <= p < st.out.len() && #[trigger] st.out[p] is Source && st.out[p]->Source_0 == st.sources[n];
        assert(st2.out[p] == st.out[p]);
    }
    assert forall|p: int| 0 <= p < st2.out.len() && #[trigger] st2.out[p] is Source implies st2.sources.dom().contains(
        st2.out[p]->Source_1) by {
        assert(st2.out[p] == st.out[p]);
    }
    assert forall|p: int, q: int|
        0 <= p < q < st2.out.len() && #[trigger] st2.out[p] is Source && #[trigger] st2.out[q] is Source implies st2.out[p]->Source_1
            != st2.out[q]->Source_1 by {
        assert(st2.out[p] == st.out[p]);
        assert(st2.out[q] == st.out[q]);
    }
    assert forall|q: int|
        0 <= q < st2.out.len() && #[trigger] st2.out[q] is Chunk && st2.out[q]->Chunk_1.original is Some implies exists|p: int|
            0 <= p < q && #[trigger] st2.out[p] is Source && st2.out[p]->Source_0
                == st2.out[q]->Chunk_1.original.unwrap().source_index by {
        assert(st2.out[q] == st.out[q]);
        let p = choose|p: int| 0 <= p < q && #[trigger] st.out[p] is Source && st.out[p]->Source_0
            == st.out[q]->Chunk_1.original.unwrap().source_index;
        assert(st2.out[p] == st.out[p]);
    }
}

proof fn lemma_children_run_sources_inv(children: Seq<StreamView>, opts: MapOptions)
    ensures
        sources_inv(children_run(children, opts)),
    decreases children.len(),
{
    if children.len() > 0 {
        lemma_children_run_sources_inv(children.drop_last(), opts);
        let st = children_run(children.drop_last(), opts);
        let st1 = child_start(st);
        assert(sources_inv(st1));
        lemma_events_run_sources_inv(st1, children.last().events, opts);
        lemma_child_end_sources_inv(events_run(st1, children.last().events, opts), children.last().info, opts);
    }
}

/// No name is announced twice.
pub open spec fn names_announced_once(out: Seq<EventView>) -> bool {
    forall|p: int, q: int|
        0 <= p < q < out.len() && #[trigger] out[p] is Name && #[trigger] out[q] is Name ==> out[p]->Name_1
            != out[q]->Name_1
}

/// Every chunk whose mapping has a name refers to a name index announced before it.
pub open spec fn mapped_names_announced(out: Seq<EventView>) -> bool {
    forall|q: int|
        0 <= q < out.len() && #[trigger] out[q] is Chunk && out[q]->Chunk_1.original is Some && out[q]->Chunk_1.original.unwrap().name_index is Some ==> exists|p: int|
            0 <= p < q && #[trigger] out[p] is Name && out[p]->Name_0
                == out[q]->Chunk_1.original.unwrap().name_index.unwrap()
}

/// What the concatenation keeps true of its names between two calls.
pub open spec fn names_inv(st: ConcatState) -> bool {
    &&& st.names.dom().finite()
    &&& forall|n: Seq<char>| #[trigger] st.names.dom().contains(n) ==> exists|p: int|
        0 <= p < st.out.len() && #[trigger] st.out[p] is Name && st.out[p]->Name_0 == st.names[n]
    &&& forall|p: int| 0 <= p < st.out.len() && #[trigger] st.out[p] is Name ==> st.names.dom().contains(
        st.out[p]->Name_1,
    )
    &&& forall|i: u32| #[trigger] st.name_indices.dom().contains(i) ==> exists|n: Seq<char>|
        #[trigger] st.names.dom().contains(n) && st.names[n] == st.name_indices[i]
    &&& names_announced_once(st.out)
    &&& mapped_names_announced(st.out)
}

proof fn lemma_event_step_names_inv(st: ConcatState, e: EventView, opts: MapOptions)
    requires
        names_inv(st),
    ensures
        names_inv(event_step(st, e, opts)),
{
    let st2 = event_step(st, e, opts);
    assert forall|p: int| 0 <= p < st.out.len() implies #[trigger] st2.out[p] == st.out[p] by {}
    match e {
        EventView::Chunk(c, m) => {
            let closing = st.need_close && (m.generated_line != 1 || m.generated_column != 0);
            let out1 = if closing {
                st.out.push(close_event(st))
            } else {
                st.out
            };
            assert forall|p: int| 0 <= p < out1.len() implies #[trigger] st2.out[p] == out1[p] by {}
            assert forall|p: int| st.out.len() <= p < st2.out.len() implies #[trigger] st2.out[p] is Chunk by {}
            assert forall|p: int| 0 <= p < st2.out.len() && #[trigger] st2.out[p] is Name implies st2.names.dom().contains(
                st2.out[p]->Name_1) by {
                assert(st2.out[p] == st.out[p]);
            }
            assert forall|p: int, q: int|
                0 <= p < q < st2.out.len() && #[trigger] st2.out[p] is Name && #[trigger] st2.out[q] is Name implies st2.out[p]->Name_1
                    != st2.out[q]->Name_1 by {
                assert(st2.out[p] == st.out[p]);
                assert(st2.out[q] == st.out[q]);
            }
            assert forall|n: Seq<char>| #[trigger] st2.names.dom().contains(n) implies exists|p: int|
                0 <= p < st2.out.len() && #[trigger] st2.out[p] is Name && st2.out[p]->Name_0 == st2.names[n] by {
                let p = choose|p: int| 0 <= p < st.out.len() && #[trigger] st.out[p] is Name && st.out[p]->Name_0 == st.names[n];
                assert(st2.out[p] == st.out[p]);
            }
            assert forall|q: int|
                0 <= q < st2.out.len() && #[trigger] st2.out[q] is Chunk && st2.out[q]->Chunk_1.original is Some && st2.out[q]->Chunk_1.original.unwrap().name_index is Some implies exists|p: int|
                    0 <= p < q && #[trigger] st2.out[p] is Name && st2.out[p]->Name_0
                        == st2.out[q]->Chunk_1.original.unwrap().name_index.unwrap() by {
                if q < st.out.len() {
                    assert(st2.out[q] == st.out[q]);
                    let p = choose|p: int| 0 <= p < q && #[trigger] st.out[p] is Name && st.out[p]->Name_0
                        == st.out[q]->Chunk_1.original.unwrap().name_index.unwrap();
                    assert(st2.out[p] == st.out[p]);
                } else if q < out1.len() {
                } else {
                    let o = m.original.unwrap();
                    let g = st.name_indices[o.name_index.unwrap()];
                    let n = choose|n: Seq<char>| #[trigger] st.names.dom().contains(n) && st.names[n] == g;
                    let p = choose|p: int| 0 <= p < st.out.len() && #[trigger] st.out[p] is Name && st.out[p]->Name_0 == st.names[n];
                    assert(st2.out[p] == st.out[p]);
                }
            }
        },
        EventView::Name(i, src) => {
            if st.names.dom().contains(src) {
                assert forall|j: u32| #[trigger] st2.name_indices.dom().contains(j) implies exists|n: Seq<char>|
                    #[trigger] st2.names.dom().contains(n) && st2.names[n] == st2.name_indices[j] by {
                    if j != i {
                        assert(st.name_indices.dom().contains(j));
                        let n = choose|n: Seq<char>| #[trigger] st.names.dom().contains(n) && st.names[n] == st.name_indices[j];
                        assert(st2.names.dom().contains(n) && st2.names[n] == st2.name_indices[j]);
                    } else {
                        assert(st2.names.dom().contains(src));
                        assert(st2.names[src] == st2.name_indices[j]);
                    }
                }
            } else {
                let g = st.names.len() as u32;
                let last = st.out.len() as int;
                assert(st2.out[last] == EventView::Name(g, src));
                assert forall|n: Seq<char>| #[trigger] st2.names.dom().contains(n) implies exists|p: int|
                    0 <= p < st2.out.len() && #[trigger] st2.out[p] is Name && st2.out[p]->Name_0 == st2.names[n] by {
                    if n == src {
                        assert(st2.out[last] is Name);
                    } else {
                        let p = choose|p: int| 0 <= p < st.out.len() && #[trigger] st.out[p] is Name && st.out[p]->Name_0 == st.names[n];
                        assert(st2.out[p] == st.out[p]);
                    }
                }
                assert forall|p: int| 0 <= p < st2.out.len() && #[trigger] st2.out[p] is Name implies st2.names.dom().contains(
                    st2.out[p]->Name_1) by {
                    if p < last {
                        assert(st2.out[p] == st.out[p]);
                    }
                }
                assert forall|j: u32| #[trigger] st2.name_indices.dom().contains(j) implies exists|n: Seq<char>|
                    #[trigger] st2.names.dom().contains(n) && st2.names[n] == st2.name_indices[j] by {
                    if j != i {
                        assert(st.name_indices.dom().contains(j));
                        let n = choose|n: Seq<char>| #[trigger] st.names.dom().contains(n) && st.names[n] == st.name_indices[j];
                        assert(st2.names.dom().contains(n));
                        assert(st2.names[n] == st.names[n]);
                    } else {
                        assert(st2.names.dom().contains(src));
                        assert(st2.names[src] == st2.name_indices[j]);
                    }
                }
                assert forall|p: int, q: int|
                    0 <= p < q < st2.out.len() && #[trigger] st2.out[p] is Name && #[trigger] st2.out[q] is Name implies st2.out[p]->Name_1
                        != st2.out[q]->Name_1 by {
                    assert(st2.out[p] == st.out[p]);
                    if q < last {
                        assert(st2.out[q] == st.out[q]);
                    } else {
                        assert(st.names.dom().contains(st.out[p]->Name_1));
                    }
                }
                assert forall|q: int|
                    0 <= q < st2.out.len() && #[trigger] st2.out[q] is Chunk && st2.out[q]->Chunk_1.original is Some && st2.out[q]->Chunk_1.original.unwrap().name_index is Some implies exists|p: int|
                        0 <= p < q && #[trigger] st2.out[p] is Name && st2.out[p]->Name_0
                            == st2.out[q]->Chunk_1.original.unwrap().name_index.unwrap() by {
                    assert(q < last);
                    assert(st2.out[q] == st.out[q]);
                    let p = choose|p: int| 0 <= p < q && #[trigger] st.out[p] is Name && st.out[p]->Name_0
                        == st.out[q]->Chunk_1.original.unwrap().name_index.unwrap();
                    assert(st2.out[p] == st.out[p]);
                }
            }
        },
        EventView::Source(i, name, content) => {
            let last = st.out.len() as int;
            assert forall|n: Seq<char>| #[trigger] st2.names.dom().contains(n) implies exists|p: int|
                0 <= p < st2.out.len() && #[trigger] st2.out[p] is Name && st2.out[p]->Name_0 == st2.names[n] by {
                let p = choose|p: int| 0 <= p < st.out.len() && #[trigger] st.out[p] is Name && st.out[p]->Name_0 == st.names[n];
                assert(st2.out[p] == st.out[p]);
            }
            assert forall|q: int|
                0 <= q < st2.out.len() && #[trigger] st2.out[q] is Chunk && st2.out[q]->Chunk_1.original is Some && st2.out[q]->Chunk_1.original.unwrap().name_index is Some implies exists|p: int|
                    0 <= p < q && #[trigger] st2.out[p] is Name && st2.out[p]->Name_0
                        == st2.out[q]->Chunk_1.original.unwrap().name_index.unwrap() by {
                assert(q < last);
                assert(st2.out[q] == st.out[q]);
                let p = choose|p: int| 0 <= p < q && #[trigger] st.out[p] is Name && st.out[p]->Name_0
                    == st.out[q]->Chunk_1.original.unwrap().name_index.unwrap();
                assert(st2.out[p] == st.out[p]);
            }
        },
    }
}

proof fn lemma_events_run_names_inv(st: ConcatState, evs: Seq<EventView>, opts: MapOptions)
    requires
        names_inv(st),
    ensures
        names_inv(events_run(st, evs, opts)),
    decreases evs.len(),
{
    if evs.len() > 0 {
        lemma_events_run_names_inv(st, evs.drop_last(), opts);
        lemma_event_step_names_inv(events_run(st, evs.drop_last(), opts), evs.last(), opts);
    }
}

proof fn lemma_child_end_names_inv(st: ConcatState, info: GeneratedInfo, opts: MapOptions)
    requires
        names_inv(st),
    ensures
        names_inv(child_end(st, info, opts)),
{
    let st2 = child_end(st, info, opts);
    let last = st.out.len() as int;
    assert forall|p: int| 0 <= p < last implies #[trigger] st2.out[p] == st.out[p] by {}
    assert forall|p: int| last <= p < st2.out.len() implies #[trigger] st2.out[p] is Chunk
        && st2.out[p]->Chunk_1.original is None by {}
    assert forall|n: Seq<char>| #[trigger] st2.names.dom().contains(n) implies exists|p: int|
        0 <= p < st2.out.len() && #[trigger] st2.out[p] is Name && st2.out[p]->Name_0 == st2.names[n] by {
        let p = choose|p: int| 0 <= p < st.out.len() && #[trigger] st.out[p] is Name && st.out[p]->Name_0 == st.names[n];
        assert(st2.out[p] == st.out[p]);
    }
    assert forall|p: int| 0 <= p < st2.out.len() && #[trigger] st2.out[p] is Name implies st2.names.dom().contains(
        st2.out[p]->Name_1) by {
        assert(st2.out[p] == st.out[p]);
    }
    assert forall|p: int, q: int|
        0 <= p < q < st2.out.len() && #[trigger] st2.out[p] is Name && #[trigger] st2.out[q] is Name implies st2.out[p]->Name_1
            != st2.out[q]->Name_1 by {
        assert(st2.out[p] == st.out[p]);
        assert(st2.out[q] == st.out[q]);
    }
    assert forall|q: int|
        0 <= q < st2.out.len() && #[trigger] st2.out[q] is Chunk && st2.out[q]->Chunk_1.original is Some && st2.out[q]->Chunk_1.original.unwrap().name_index is Some implies exists|p: int|
            0 <= p < q && #[trigger] st2.out[p] is Name && st2.out[p]->Name_0
                == st2.out[q]->Chunk_1.original.unwrap().name_index.unwrap() by {
        assert(st2.out[q] == st.out[q]);
        let p = choose|p: int| 0 <= p < q && #[trigger] st.out[p] is Name && st.out[p]->Name_0
            == st.out[q]->Chunk_1.original.unwrap().name_index.unwrap();
        assert(st2.out[p] == st.out[p]);
    }
}

proof fn lemma_children_run_names_inv(children: Seq<StreamView>, opts: MapOptions)
    ensures
        names_inv(children_run(children, opts)),
    decreases children.len(),
{
    if children.len() > 0 {
        lemma_children_run_names_inv(children.drop_last(), opts);
        let st = children_run(children.drop_last(), opts);
        let st1 = child_start(st);
        assert(names_inv(st1));
        lemma_events_run_names_inv(st1, children.last().events, opts);
        lemma_child_end_names_inv(events_run(st1, children.last().events, opts), children.last().info, opts);
    }
}

/// Number of sources announced in `out`.
pub open spec fn source_count(out: Seq<EventView>) -> nat
    decreases out.len(),
{
    if out.len() == 0 {
        0
    } else {
        source_count(out.drop_last()) + if out.last() is Source {
            1nat
        } else {
            0nat
        }
    }
}

/// Sources are numbered in the order they are announced, from 0.
pub open spec fn sources_numbered_in_order(out: Seq<EventView>) -> bool {
    forall|p: int|
        0 <= p < out.len() && #[trigger] out[p] is Source ==> out[p]->Source_0 == source_count(out.take(p))
            as u32
}

/// The global index of every source seen so far is that of its announcement.
pub open spec fn sources_numbering_inv(st: ConcatState) -> bool {
    &&& st.sources.dom().finite()
    &&& st.sources.len() == source_count(st.out)
    &&& sources_numbered_in_order(st.out)
    &&& forall|n: Seq<char>| #[trigger] st.sources.dom().contains(n) ==> exists|p: int|
        0 <= p < st.out.len() && #[trigger] st.out[p] is Source && st.out[p]->Source_0 == st.sources[n]
            && st.out[p]->Source_1 == n
}

proof fn lemma_source_count_push(out: Seq<EventView>, e: EventView)
    ensures
        source_count(out.push(e)) == source_count(out) + if e is Source {
            1nat
        } else {
            0nat
        },
        forall|p: int| 0 <= p <= out.len() ==> #[trigger] out.push(e).take(p) == out.take(p),
{
    assert(out.push(e).drop_last() =~= out);
    assert forall|p: int| 0 <= p <= out.len() implies #[trigger] out.push(e).take(p) == out.take(p) by {
        assert(out.push(e).take(p) =~= out.take(p));
    }
}

/// Pushing events that announce no source keeps the numbering.
proof fn lemma_numbering_push_other(st: ConcatState, st2: ConcatState, e: EventView)
    requires
        sources_numbering_inv(st),
        !(e is Source),
        st2.sources == st.sources,
        st2.out == st.out.push(e),
    ensures
        sources_numbering_inv(st2),
{
    lemma_source_count_push(st.out, e);
    let last = st.out.len() as int;
    assert forall|p: int| 0 <= p < st2.out.len() && #[trigger] st2.out[p] is Source implies st2.out[p]->Source_0
        == source_count(st2.out.take(p)) as u32 by {
        assert(p < last);
        assert(st2.out[p] == st.out[p]);
    }
    assert forall|n: Seq<char>| #[trigger] st2.sources.dom().contains(n) implies exists|p: int|
        0 <= p < st2.out.len() && #[trigger] st2.out[p] is Source && st2.out[p]->Source_0 == st2.sources[n]
            && st2.out[p]->Source_1 == n by {
        let p = choose|p: int|
            0 <= p < st.out.len() && #[trigger] st.out[p] is Source && st.out[p]->Source_0 == st.sources[n]
                && st.out[p]->Source_1 == n;
        assert(st2.out[p] == st.out[p]);
    }
}

proof fn lemma_event_step_numbering(st: ConcatState, e: EventView, opts: MapOptions)
    requires
        sources_numbering_inv(st),
    ensures
        sources_numbering_inv(event_step(st, e, opts)),
{
    let st2 = event_step(st, e, opts);
    match e {
        EventView::Chunk(c, m) => {
            let closing = st.need_close && (m.generated_line != 1 || m.generated_column != 0);
            let mid = ConcatState {
                out: if closing {
                    st.out.push(close_event(st))
                } else {
                    st.out
                },
                ..st
            };
            if closing {
                lemma_numbering_push_other(st, mid, close_event(st));
            }
            if st2.out.len() > mid.out.len() {
                let last = st2.out[mid.out.len() as int];
                assert(st2.out == mid.out.push(last));
                lemma_numbering_push_other(mid, st2, last);
            } else {
                assert(st2.out == mid.out);
            }
        },
        EventView::Source(i, src, content) => {
            if !st.sources.dom().contains(src) {
                let g = st.sources.len() as u32;
                let ev = EventView::Source(g, src, content);
                lemma_source_count_push(st.out, ev);
                let last = st.out.len() as int;
                assert(st2.out == st.out.push(ev));
                assert(st2.sources.len() == st.sources.len() + 1);
                assert forall|p: int| 0 <= p < st2.out.len() && #[trigger] st2.out[p] is Source implies st2.out[p]->Source_0
                    == source_count(st2.out.take(p)) as u32 by {
                    if p < last {
                        assert(st2.out[p] == st.out[p]);
                    } else {
                        assert(st2.out.take(p) == st.out.take(last));
                        assert(st.out.take(last) =~= st.out);
                    }
                }
                assert forall|n: Seq<char>| #[trigger] st2.sources.dom().contains(n) implies exists|p: int|
                    0 <= p < st2.out.len() && #[trigger] st2.out[p] is Source && st2.out[p]->Source_0
                        == st2.sources[n] && st2.out[p]->Source_1 == n by {
                    if n == src {
                        assert(st2.out[last] is Source);
                    } else {
                        let p = choose|p: int|
                            0 <= p < st.out.len() && #[trigger] st.out[p] is Source && st.out[p]->Source_0
                                == st.sources[n] && st.out[p]->Source_1 == n;
                        assert(st2.out[p] == st.out[p]);
                    }
                }
            }
        },
        EventView::Name(i, name) => {
            if !st.names.dom().contains(name) {
                let g = st.names.len() as u32;
                lemma_numbering_push_other(st, st2, EventView::Name(g, name));
            }
        },
    }
}

proof fn lemma_events_run_numbering(st: ConcatState, evs: Seq<EventView>, opts: MapOptions)
    requires
        sources_numbering_inv(st),
    ensures
        sources_numbering_inv(events_run(st, evs, opts)),
    decreases evs.len(),
{
    if evs.len() > 0 {
        lemma_events_run_numbering(st, evs.drop_last(), opts);
        lemma_event_step_numbering(events_run(st, evs.drop_last(), opts), evs.last(), opts);
    }
}

proof fn lemma_children_run_numbering(children: Seq<StreamView>, opts: MapOptions)
    ensures
        sources_numbering_inv(children_run(children, opts)),
    decreases children.len(),
{
    if children.len() == 0 {
        assert(source_count(Seq::<EventView>::empty()) == 0);
    } else {
        lemma_children_run_numbering(children.drop_last(), opts);
        let st = children_run(children.drop_last(), opts);
        let st1 = child_start(st);
        lemma_events_run_numbering(st1, children.last().events, opts);
        let st2 = events_run(st1, children.last().events, opts);
        let st3 = child_end(st2, children.last().info, opts);
        if st3.out.len() > st2.out.len() {
            lemma_numbering_push_other(st2, st3, close_event(st2));
        }
    }
}

/// In the stream of a concatenation of several streams (or none), the sources are
/// numbered in the order they are announced, counting from 0.
pub proof fn lemma_concat_sources_numbered(children: Seq<StreamView>, opts: MapOptions)
    requires
        children.len() != 1,
    ensures
        sources_numbered_in_order(concat_stream(children, opts).events),
{
    lemma_children_run_numbering(children, opts);
}

/// When a child announces a source under its own index `i`, the concatenation
/// renumbers `i` to the global index of that source, and that index is announced
/// with the same source: chunks of the child keep pointing at their source.
pub proof fn lemma_source_renumbered(st: ConcatState, i: u32, source: Seq<char>, content: Option<Seq<char>>)
    requires
        sources_numbering_inv(st),
    ensures
        ({
            let st2 = source_step(st, i, source, content);
            &&& st2.source_indices[i] == st2.sources[source]
            &&& exists|p: int|
                0 <= p < st2.out.len() && #[trigger] st2.out[p] is Source && st2.out[p]->Source_0
                    == st2.source_indices[i] && st2.out[p]->Source_1 == source
        }),
{
    let st2 = source_step(st, i, source, content);
    lemma_event_step_numbering(st, EventView::Source(i, source, content), MapOptions { columns: true, final_source: false });
    assert(st2.sources.dom().contains(source));
}

/// Number of names announced in `out`.
pub open spec fn name_count(out: Seq<EventView>) -> nat
    decreases out.len(),
{
    if out.len() == 0 {
        0
    } else {
        name_count(out.drop_last()) + if out.last() is Name {
            1nat
        } else {
            0nat
        }
    }
}

/// Names are numbered in the order they are announced, from 0.
pub open spec fn names_numbered_in_order(out: Seq<EventView>) -> bool {
    forall|p: int|
        0 <= p < out.len() && #[trigger] out[p] is Name ==> out[p]->Name_0 == name_count(out.take(p))
            as u32
}

/// The global index of every name seen so far is that of its announcement.
pub open spec fn names_numbering_inv(st: ConcatState) -> bool {
    &&& st.names.dom().finite()
    &&& st.names.len() == name_count(st.out)
    &&& names_numbered_in_order(st.out)
    &&& forall|n: Seq<char>| #[trigger] st.names.dom().contains(n) ==> exists|p: int|
        0 <= p < st.out.len() && #[trigger] st.out[p] is Name && st.out[p]->Name_0 == st.names[n]
            && st.out[p]->Name_1 == n
}

proof fn lemma_name_count_push(out: Seq<EventView>, e: EventView)
    ensures
        name_count(out.push(e)) == name_count(out) + if e is Name {
            1nat
        } else {
            0nat
        },
        forall|p: int| 0 <= p <= out.len() ==> #[trigger] out.push(e).take(p) == out.take(p),
{
    assert(out.push(e).drop_last() =~= out);
    assert forall|p: int| 0 <= p <= out.len() implies #[trigger] out.push(e).take(p) == out.take(p) by {
        assert(out.push(e).take(p) =~= out.take(p));
    }
}

/// Pushing events that announce no name keeps the numbering.
proof fn lemma_name_numbering_push_other(st: ConcatState, st2: ConcatState, e: EventView)
    requires
        names_numbering_inv(st),
        !(e is Name),
        st2.names == st.names,
        st2.out == st.out.push(e),
    ensures
        names_numbering_inv(st2),
{
    lemma_name_count_push(st.out, e);
    let last = st.out.len() as int;
    assert forall|p: int| 0 <= p < st2.out.len() && #[trigger] st2.out[p] is Name implies st2.out[p]->Name_0
        == name_count(st2.out.take(p)) as u32 by {
        assert(p < last);
        assert(st2.out[p] == st.out[p]);
    }
    assert forall|n: Seq<char>| #[trigger] st2.names.dom().contains(n) implies exists|p: int|
        0 <= p < st2.out.len() && #[trigger] st2.out[p] is Name && st2.out[p]->Name_0 == st2.names[n]
            && st2.out[p]->Name_1 == n by {
        let p = choose|p: int|
            0 <= p < st.out.len() && #[trigger] st.out[p] is Name && st.out[p]->Name_0 == st.names[n]
                && st.out[p]->Name_1 == n;
        assert(st2.out[p] == st.out[p]);
    }
}

proof fn lemma_event_step_name_numbering(st: ConcatState, e: EventView, opts: MapOptions)
    requires
        names_numbering_inv(st),
    ensures
        names_numbering_inv(event_step(st, e, opts)),
{
    let st2 = event_step(st, e, opts);
    match e {
        EventView::Chunk(c, m) => {
            let closing = st.need_close && (m.generated_line != 1 || m.generated_column != 0);
            let mid = ConcatState {
                out: if closing {
                    st.out.push(close_event(st))
                } else {
                    st.out
                },
                ..st
            };
            if closing {
                lemma_name_numbering_push_other(st, mid, close_event(st));
            }
            if st2.out.len() > mid.out.len() {
                let last = st2.out[mid.out.len() as int];
                assert(st2.out == mid.out.push(last));
                lemma_name_numbering_push_other(mid, st2, last);
            } else {
                assert(st2.out == mid.out);
            }
        },
        EventView::Name(i, src) => {
            if !st.names.dom().contains(src) {
                let g = st.names.len() as u32;
                let ev = EventView::Name(g, src);
                lemma_name_count_push(st.out, ev);
                let last = st.out.len() as int;
                assert(st2.out == st.out.push(ev));
                assert(st2.names.len() == st.names.len() + 1);
                assert forall|p: int| 0 <= p < st2.out.len() && #[trigger] st2.out[p] is Name implies st2.out[p]->Name_0
                    == name_count(st2.out.take(p)) as u32 by {
                    if p < last {
                        assert(st2.out[p] == st.out[p]);
                    } else {
                        assert(st2.out.take(p) == st.out.take(last));
                        assert(st.out.take(last) =~= st.out);
                    }
                }
                assert forall|n: Seq<char>| #[trigger] st2.names.dom().contains(n) implies exists|p: int|
                    0 <= p < st2.out.len() && #[trigger] st2.out[p] is Name && st2.out[p]->Name_0
                        == st2.names[n] && st2.out[p]->Name_1 == n by {
                    if n == src {
                        assert(st2.out[last] is Name);
                    } else {
                        let p = choose|p: int|
                            0 <= p < st.out.len() && #[trigger] st.out[p] is Name && st.out[p]->Name_0
                                == st.names[n] && st.out[p]->Name_1 == n;
                        assert(st2.out[p] == st.out[p]);
                    }
                }
            }
        },
        EventView::Source(i, source, content) => {
            if !st.sources.dom().contains(source) {
                let g = st.sources.len() as u32;
                lemma_name_numbering_push_other(st, st2, EventView::Source(g, source, content));
            }
        },
    }
}

proof fn lemma_events_run_name_numbering(st: ConcatState, evs: Seq<EventView>, opts: MapOptions)
    requires
        names_numbering_inv(st),
    ensures
        names_numbering_inv(events_run(st, evs, opts)),
    decreases evs.len(),
{
    if evs.len() > 0 {
        lemma_events_run_name_numbering(st, evs.drop_last(), opts);
        lemma_event_step_name_numbering(events_run(st, evs.drop_last(), opts), evs.last(), opts);
    }
}

proof fn lemma_children_run_name_numbering(children: Seq<StreamView>, opts: MapOptions)
    ensures
        names_numbering_inv(children_run(children, opts)),
    decreases children.len(),
{
    if children.len() == 0 {
        assert(name_count(Seq::<EventView>::empty()) == 0);
    } else {
        lemma_children_run_name_numbering(children.drop_last(), opts);
        let st = children_run(children.drop_last(), opts);
        let st1 = child_start(st);
        lemma_events_run_name_numbering(st1, children.last().events, opts);
        let st2 = events_run(st1, children.last().events, opts);
        let st3 = child_end(st2, children.last().info, opts);
        if st3.out.len() > st2.out.len() {
            lemma_name_numbering_push_other(st2, st3, close_event(st2));
        }
    }
}

/// In the stream of a concatenation of several streams (or none), the names are
/// numbered in the order they are announced, counting from 0.
pub proof fn lemma_concat_names_numbered(children: Seq<StreamView>, opts: MapOptions)
    requires
        children.len() != 1,
    ensures
        names_numbered_in_order(concat_stream(children, opts).events),
{
    lemma_children_run_name_numbering(children, opts);
}

/// When a child announces a name under its own index `i`, the concatenation
/// renumbers `i` to the global index of that name, and that index is announced
/// with the same name.
pub proof fn lemma_name_renumbered(st: ConcatState, i: u32, name: Seq<char>)
    requires
        names_numbering_inv(st),
    ensures
        ({
            let st2 = name_step(st, i, name);
            &&& st2.name_indices[i] == st2.names[name]
            &&& exists|p: int|
                0 <= p < st2.out.len() && #[trigger] st2.out[p] is Name && st2.out[p]->Name_0
                    == st2.name_indices[i] && st2.out[p]->Name_1 == name
        }),
{
    let st2 = name_step(st, i, name);
    lemma_event_step_name_numbering(st, EventView::Name(i, name), MapOptions { columns: true, final_source: false });
    assert(st2.names.dom().contains(name));
}

/// In the stream of a concatenation of several streams (or none), each source is
/// announced once, and every chunk with an original refers to a source announced
/// before it: sources that several children share are merged into one.
pub proof fn lemma_concat_sources_announced_once(children: Seq<StreamView>, opts: MapOptions)
    requires
        children.len() != 1,
    ensures
        sources_announced_once(concat_stream(children, opts).events),
        mapped_sources_announced(concat_stream(children, opts).events),
{
    lemma_children_run_sources_inv(children, opts);
}

/// In the stream of a concatenation of several streams (or none), each name is
/// announced once, and every chunk with a name refers to a name announced before
/// it: names that several children share are merged into one.
pub proof fn lemma_concat_names_announced_once(children: Seq<StreamView>, opts: MapOptions)
    requires
        children.len() != 1,
    ensures
        names_announced_once(concat_stream(children, opts).events),
        mapped_names_announced(concat_stream(children, opts).events),
{
    lemma_children_run_names_inv(children, opts);
}

/// The section streams as views.
pub open spec fn section_views(children: Seq<SectionOutput>) -> Seq<SectionsView> {
    children.map_values(|c: SectionOutput| c@)
}

/// Where the next child's code starts, while the sections of a concatenation are
/// collected, the sections so far, and whether every position fitted in `u32`.
pub struct SectionState {
    pub current: GeneratedInfo,
    pub out: Seq<SectionEntry>,
    pub ok: bool,
}

/// A child's section, moved to where the child starts: lines after the code
/// before it, and, on the child's first line only, columns after the column
/// where the child starts.
pub open spec fn shifted_section(cur: GeneratedInfo, e: SectionEntry) -> SectionEntry {
    SectionEntry {
        offset: Offset {
            line: (e.offset.line + cur.generated_line - 1) as u32,
            column: if e.offset.line == 0 {
                (e.offset.column + cur.generated_column) as u32
            } else {
                e.offset.column
            },
        },
        map: e.map,
    }
}

pub open spec fn section_fits(cur: GeneratedInfo, e: SectionEntry) -> bool {
    &&& e.offset.line + cur.generated_line - 1 <= u32::MAX
    &&& e.offset.line == 0 ==> e.offset.column + cur.generated_column <= u32::MAX
}

pub open spec fn child_sections_run(st: SectionState, secs: Seq<SectionEntry>) -> SectionState
    decreases secs.len(),
{
    if secs.len() == 0 {
        st
    } else {
        let s1 = child_sections_run(st, secs.drop_last());
        SectionState {
            current: s1.current,
            out: s1.out.push(shifted_section(s1.current, secs.last())),
            ok: s1.ok && section_fits(s1.current, secs.last()),
        }
    }
}

/// After a child: the next child starts on the child's last line, after the
/// child's last column on that line (which continues the line the child
/// started on when the child has one line).
pub open spec fn section_child_end(st: SectionState, info: GeneratedInfo) -> SectionState {
    SectionState {
        current: GeneratedInfo {
            generated_line: (st.current.generated_line + info.generated_line - 1) as u32,
            generated_column: if info.generated_line > 1 {
                info.generated_column
            } else {
                (st.current.generated_column + info.generated_column) as u32
            },
        },
        out: st.out,
        ok: st.ok && info.generated_line >= 1 && st.current.generated_line + info.generated_line - 1
            <= u32::MAX && (info.generated_line <= 1 ==> st.current.generated_column
            + info.generated_column <= u32::MAX),
    }
}

pub open spec fn sections_run(children: Seq<SectionsView>) -> SectionState
    decreases children.len(),
{
    if children.len() == 0 {
        SectionState { current: GeneratedInfo { generated_line: 1, generated_column: 0 }, out: Seq::empty(), ok: true }
    } else {
        let st = sections_run(children.drop_last());
        section_child_end(child_sections_run(st, children.last().sections), children.last().info)
    }
}

proof fn lemma_child_sections_ok_prefix(st: SectionState, secs: Seq<SectionEntry>, k: int)
    requires
        child_sections_run(st, secs).ok,
        0 <= k <= secs.len(),
    ensures
        child_sections_run(st, secs.take(k)).ok,
        child_sections_run(st, secs.take(k)).current == st.current,
        k < secs.len() ==> section_fits(st.current, secs[k]),
    decreases secs.len() - k,
{
    if k < secs.len() {
        lemma_child_sections_ok_prefix(st, secs, k + 1);
        assert(secs.take(k + 1).drop_last() =~= secs.take(k));
    } else {
        assert(secs.take(k) =~= secs);
    }
    lemma_child_sections_current(st, secs.take(k));
}

proof fn lemma_child_sections_current(st: SectionState, secs: Seq<SectionEntry>)
    ensures
        child_sections_run(st, secs).current == st.current,
        child_sections_run(st, secs).ok ==> st.ok,
    decreases secs.len(),
{
    if secs.len() > 0 {
        lemma_child_sections_current(st, secs.drop_last());
    }
}

proof fn lemma_sections_ok_prefix(children: Seq<SectionsView>, k: int)
    requires
        sections_run(children).ok,
        0 <= k < children.len(),
    ensures
        section_child_end(
            child_sections_run(sections_run(children.take(k)), children[k].sections),
            children[k].info,
        ).ok,
    decreases children.len() - k,
{
    if k + 1 < children.len() {
        lemma_sections_ok_prefix(children, k + 1);
        assert(children.take(k + 2).drop_last() =~= children.take(k + 1));
        assert(children.take(k + 1).drop_last() =~= children.take(k));
        lemma_child_sections_current(sections_run(children.take(k + 1)), children[k + 1].sections);
    } else {
        assert(children.take(k + 1) =~= children);
        assert(children.take(k + 1).drop_last() =~= children.take(k));
    }
}

/// The sections of a concatenation: each child's sections, moved to where the
/// child starts.
pub fn concat_sections(children: Vec<SectionOutput>) -> (r: SectionOutput)
    requires
        sections_run(section_views(children@)).ok,
    ensures
        r.sections@ == sections_run(section_views(children@)).out,
        r.info == sections_run(section_views(children@)).current,
{
    let ghost views = section_views(children@);
    let ghost all = children@;
    let mut current = GeneratedInfo { generated_line: 1, generated_column: 0 };
    let mut out: Vec<SectionEntry> = Vec::new();
    proof {
        assert(views.take(0) =~= Seq::<SectionsView>::empty());
    }
    for child in it: children
        invariant
            all == it.seq(),
            views == section_views(all),
            sections_run(views).ok,
            ({
                let st = sections_run(views.take(it.index() as int));
                &&& st.current == current
                &&& st.out == out@
                &&& st.ok
            }),
            current.generated_line >= 1,
    {
        let ghost c = it.index() as int;
        let ghost st0 = sections_run(views.take(c));
        proof {
            lemma_sections_ok_prefix(views, c);
            assert(views[c] == all[c]@);
            lemma_child_sections_ok_prefix(st0, child.sections@, child.sections@.len() as int);
            assert(child == all[c]);
        }
        let ghost secs = child.sections@;
        let info = child.info;
        for entry in jt: child.sections
            invariant
                secs == jt.seq(),
                child_sections_run(st0, secs).ok,
                st0.current == current,
                current.generated_line >= 1,
                ({
                    let st = child_sections_run(st0, secs.take(jt.index() as int));
                    &&& st.out == out@
                }),
        {
            let ghost k = jt.index() as int;
            proof {
                lemma_child_sections_ok_prefix(st0, secs, k);
                assert(secs.take(k + 1).drop_last() =~= secs.take(k));
                lemma_child_sections_current(st0, secs.take(k));
            }
            let SectionEntry { offset, map } = entry;
            // Columns move only on the line where the child starts.
            let column = if offset.line == 0 {
                offset.column + current.generated_column
            } else {
                offset.column
            };
            out.push(SectionEntry { offset: Offset { line: offset.line + (current.generated_line - 1), column }, map });
        }
        proof {
            assert(secs.take(secs.len() as int) =~= secs);
            lemma_child_sections_current(st0, secs);
            assert(views.take(c + 1).drop_last() =~= views.take(c));
        }
        current.generated_line = current.generated_line + (info.generated_line - 1);
        if info.generated_line > 1 {
            current.generated_column = info.generated_column;
        } else {
            current.generated_column = current.generated_column + info.generated_column;
        }
    }
    proof {
        assert(views.take(views.len() as int) =~= views);
    }
    SectionOutput { sections: out, info: current }
}

pub(crate) proof fn lemma_events_run_keeps_offsets(
    st: ConcatState,
    evs: Seq<crate::stream::EventView>,
    opts: MapOptions,
)
    ensures
        events_run(st, evs, opts).line_offset == st.line_offset,
        events_run(st, evs, opts).column_offset == st.column_offset,
        events_run(st, evs, opts).ok ==> st.ok,
    decreases evs.len(),
{
    if evs.len() > 0 {
        lemma_events_run_keeps_offsets(st, evs.drop_last(), opts);
    }
}


/// Where code ends when pieces of code ending at `infos` are put one after the
/// other: the line, counted from 1, and the column. A piece of several lines
/// ends at its own last column; a piece of one line continues the line.
pub open spec fn end_position(infos: Seq<GeneratedInfo>) -> (int, int)
    decreases infos.len(),
{
    if infos.len() == 0 {
        (1, 0)
    } else {
        let (line, column) = end_position(infos.drop_last());
        let i = infos.last();
        (
            line + i.generated_line - 1,
            if i.generated_line > 1 {
                i.generated_column as int
            } else {
                column + i.generated_column
            },
        )
    }
}

/// Where the children's chunk streams end.
pub open spec fn stream_infos(children: Seq<StreamView>) -> Seq<GeneratedInfo> {
    children.map_values(|c: StreamView| c.info)
}

/// Where the children's section streams end.
pub open spec fn section_infos(children: Seq<SectionsView>) -> Seq<GeneratedInfo> {
    children.map_values(|c: SectionsView| c.info)
}

proof fn lemma_children_run_offsets(children: Seq<StreamView>, opts: MapOptions)
    requires
        children_run(children, opts).ok,
    ensures
        children_run(children, opts).line_offset == end_position(stream_infos(children)).0 - 1,
        children_run(children, opts).column_offset == end_position(stream_infos(children)).1,
    decreases children.len(),
{
    if children.len() > 0 {
        let d = children.drop_last();
        let st = children_run(d, opts);
        lemma_events_run_keeps_offsets(child_start(st), children.last().events, opts);
        assert(stream_infos(children).drop_last() =~= stream_infos(d));
        lemma_children_run_offsets(d, opts);
    }
}

/// The chunk stream of a concatenation ends where the children's code, put one
/// after the other, ends.
pub proof fn lemma_concat_stream_end(children: Seq<StreamView>, opts: MapOptions)
    requires
        concat_ok(children, opts),
    ensures
        concat_stream(children, opts).info.generated_line == end_position(stream_infos(children)).0,
        concat_stream(children, opts).info.generated_column == end_position(stream_infos(children)).1,
{
    let infos = stream_infos(children);
    if children.len() == 1 {
        assert(infos.drop_last() =~= Seq::<GeneratedInfo>::empty());
        assert(end_position(infos.drop_last()) == (1int, 0int));
        assert(infos.last() == children[0].info);
    } else {
        lemma_children_run_offsets(children, opts);
    }
}

/// A chunk of child `k`, with its text, is placed after the code of the children
/// before it: lines after theirs, and columns after theirs on the child's first
/// line only.
pub proof fn lemma_chunk_placed(children: Seq<StreamView>, opts: MapOptions, k: int, j: int)
    requires
        concat_ok(children, opts),
        children.len() != 1,
        !opts.final_source,
        0 <= k < children.len(),
        0 <= j < children[k].events.len(),
        children[k].events[j] is Chunk,
    ensures
        ({
            let (line, column) = end_position(stream_infos(children.take(k)));
            let st = events_run(
                child_start(children_run(children.take(k), opts)),
                children[k].events.take(j + 1),
                opts,
            );
            let (text, m) = (children[k].events[j]->Chunk_0, children[k].events[j]->Chunk_1);
            &&& st.out.len() > 0
            &&& st.out.last() matches EventView::Chunk(t, placed) && t == text
                && placed.generated_line == line - 1 + m.generated_line
                && placed.generated_column == if m.generated_line == 1 {
                column + m.generated_column
            } else {
                m.generated_column as int
            }
        }),
{
    let st0 = children_run(children.take(k), opts);
    let evs = children[k].events;
    lemma_children_ok_prefix(children, opts, k);
    lemma_events_run_keeps_offsets(child_start(st0), evs, opts);
    lemma_events_ok_prefix(child_start(st0), evs, opts, j + 1);
    assert(evs.take(j + 1).drop_last() =~= evs.take(j));
    assert(evs.take(j + 1).last() == evs[j]);
    let inner = events_run(child_start(st0), evs.take(j), opts);
    lemma_events_run_keeps_offsets(child_start(st0), evs.take(j), opts);
    lemma_children_run_offsets(children.take(k), opts);
}

/// How many sections the children have together.
pub open spec fn section_count(children: Seq<SectionsView>) -> nat
    decreases children.len(),
{
    if children.len() == 0 {
        0
    } else {
        section_count(children.drop_last()) + children.last().sections.len()
    }
}

proof fn lemma_child_sections_out(st: SectionState, secs: Seq<SectionEntry>)
    ensures
        child_sections_run(st, secs).out.len() == st.out.len() + secs.len(),
        forall|i: int| 0 <= i < st.out.len() ==> #[trigger] child_sections_run(st, secs).out[i] == st.out[i],
        forall|j: int|
            0 <= j < secs.len() ==> #[trigger] child_sections_run(st, secs).out[st.out.len() + j]
                == shifted_section(st.current, secs[j]),
    decreases secs.len(),
{
    if secs.len() > 0 {
        lemma_child_sections_out(st, secs.drop_last());
        lemma_child_sections_current(st, secs.drop_last());
        let s1 = child_sections_run(st, secs.drop_last());
        assert forall|j: int| 0 <= j < secs.len() implies #[trigger] child_sections_run(st, secs).out[st.out.len()
            + j] == shifted_section(st.current, secs[j]) by {
            if j < secs.len() - 1 {
                assert(s1.out[st.out.len() + j] == shifted_section(st.current, secs.drop_last()[j]));
            }
        }
    }
}

/// The section stream of a concatenation ends where the children's code, put
/// one after the other, ends: where its chunk stream ends too.
pub proof fn lemma_sections_end(children: Seq<SectionsView>)
    requires
        sections_run(children).ok,
    ensures
        sections_run(children).current.generated_line == end_position(section_infos(children)).0,
        sections_run(children).current.generated_column == end_position(section_infos(children)).1,
        sections_run(children).out.len() == section_count(children),
        sections_run(children).current.generated_line >= 1,
    decreases children.len(),
{
    if children.len() > 0 {
        let d = children.drop_last();
        lemma_child_sections_current(sections_run(d), children.last().sections);
        lemma_child_sections_out(sections_run(d), children.last().sections);
        assert(section_infos(children).drop_last() =~= section_infos(d));
        lemma_sections_end(d);
    }
}

/// Section `j` of child `k` is placed after the code of the children before it:
/// lines after theirs, and columns after theirs on the child's first line only,
/// with its source map as it is.
pub proof fn lemma_section_placed(children: Seq<SectionsView>, k: int, j: int)
    requires
        sections_run(children).ok,
        0 <= k < children.len(),
        0 <= j < children[k].sections.len(),
    ensures
        ({
            let (line, column) = end_position(section_infos(children.take(k)));
            let e = children[k].sections[j];
            let placed = sections_run(children).out[section_count(children.take(k)) + j];
            &&& placed.offset.line == line - 1 + e.offset.line
            &&& placed.offset.column == if e.offset.line == 0 {
                column + e.offset.column
            } else {
                e.offset.column as int
            }
            &&& placed.map == e.map
        }),
    decreases children.len(),
{
    let n = children.len();
    let d = children.drop_last();
    let st = sections_run(d);
    let secs = children.last().sections;
    let inner = child_sections_run(st, secs);
    assert(sections_run(children) == section_child_end(inner, children.last().info));
    assert(sections_run(children).out == inner.out);
    assert(inner.ok);
    lemma_child_sections_out(st, secs);
    lemma_child_sections_current(st, secs);
    assert(st.ok);
    lemma_sections_end(d);
    if k < n - 1 {
        assert(children.take(k) =~= d.take(k));
        assert(d[k] == children[k]);
        lemma_section_placed(d, k, j);
        lemma_section_count_prefix(d, k);
        let idx = section_count(d.take(k)) + j;
        assert(idx < st.out.len());
        assert(inner.out[idx] == st.out[idx]);
    } else {
        assert(children.take(k) =~= d);
        assert(secs == children[k].sections);
        lemma_child_sections_ok_prefix(st, secs, j);
        assert(inner.out[st.out.len() + j] == shifted_section(st.current, secs[j]));
    }
}

proof fn lemma_section_count_prefix(children: Seq<SectionsView>, k: int)
    requires
        0 <= k < children.len(),
    ensures
        section_count(children.take(k)) + children[k].sections.len() <= section_count(children),
    decreases children.len(),
{
    if k < children.len() - 1 {
        assert(children.drop_last().take(k) =~= children.take(k));
        lemma_section_count_prefix(children.drop_last(), k);
    } else {
        assert(children.take(k) =~= children.drop_last());
    }
}


/// The texts of the chunks among `evs`, in order.
pub open spec fn chunk_texts(evs: Seq<EventView>) -> Seq<Option<Seq<char>>>
    decreases evs.len(),
{
    if evs.len() == 0 {
        Seq::empty()
    } else {
        chunk_texts(evs.drop_last()) + match evs.last() {
            EventView::Chunk(t, _) => seq![t],
            _ => Seq::empty(),
        }
    }
}

/// The texts of the chunks of the children, child after child.
pub open spec fn children_chunk_texts(children: Seq<StreamView>) -> Seq<Option<Seq<char>>>
    decreases children.len(),
{
    if children.len() == 0 {
        Seq::empty()
    } else {
        children_chunk_texts(children.drop_last()) + chunk_texts(children.last().events)
    }
}

proof fn lemma_chunk_texts_push(evs: Seq<EventView>, e: EventView)
    ensures
        chunk_texts(evs.push(e)) == chunk_texts(evs) + match e {
            EventView::Chunk(t, _) => seq![t],
            _ => Seq::empty(),
        },
{
    assert(evs.push(e).drop_last() =~= evs);
}

proof fn lemma_events_run_chunk_texts(st: ConcatState, evs: Seq<EventView>, opts: MapOptions)
    requires
        !opts.final_source,
        !st.need_close,
    ensures
        !events_run(st, evs, opts).need_close,
        chunk_texts(events_run(st, evs, opts).out) == chunk_texts(st.out) + chunk_texts(evs),
    decreases evs.len(),
{
    if evs.len() == 0 {
        assert(chunk_texts(st.out) + chunk_texts(evs) =~= chunk_texts(st.out));
    } else {
        let d = evs.drop_last();
        lemma_events_run_chunk_texts(st, d, opts);
        let s1 = events_run(st, d, opts);
        match evs.last() {
            EventView::Chunk(t, m) => {
                lemma_chunk_texts_push(s1.out, event_step(s1, evs.last(), opts).out.last());
                assert(event_step(s1, evs.last(), opts).out =~= s1.out.push(event_step(s1, evs.last(), opts).out.last()));
            },
            EventView::Source(i, src, c) => {
                let s2 = event_step(s1, evs.last(), opts);
                if !s1.sources.dom().contains(src) {
                    lemma_chunk_texts_push(s1.out, EventView::Source(s1.sources.len() as u32, src, c));
                }
            },
            EventView::Name(i, n) => {
                if !s1.names.dom().contains(n) {
                    lemma_chunk_texts_push(s1.out, EventView::Name(s1.names.len() as u32, n));
                }
            },
        }
        assert(chunk_texts(st.out) + chunk_texts(d) + match evs.last() {
            EventView::Chunk(t, _) => seq![t],
            _ => Seq::empty(),
        } =~= chunk_texts(st.out) + chunk_texts(evs));
    }
}

pub(crate) proof fn lemma_children_run_chunk_texts(children: Seq<StreamView>, opts: MapOptions)
    requires
        !opts.final_source,
    ensures
        !children_run(children, opts).need_close,
        chunk_texts(children_run(children, opts).out) == children_chunk_texts(children),
    decreases children.len(),
{
    if children.len() > 0 {
        let d = children.drop_last();
        lemma_children_run_chunk_texts(d, opts);
        let st = children_run(d, opts);
        lemma_events_run_chunk_texts(child_start(st), children.last().events, opts);
    }
}

/// Without final positions, the chunks of a concatenation carry the children's
/// chunk texts, child after child, each once: no chunk is added to close a
/// mapping, and none is dropped.
pub proof fn lemma_concat_chunk_texts(children: Seq<StreamView>, opts: MapOptions)
    requires
        !opts.final_source,
    ensures
        chunk_texts(concat_stream(children, opts).events) == children_chunk_texts(children),
{
    if children.len() == 1 {
        assert(children.drop_last() =~= Seq::<StreamView>::empty());
        assert(children_chunk_texts(children.drop_last()) == Seq::<Option<Seq<char>>>::empty());
        assert(children.last() == children[0]);
        assert(children_chunk_texts(children) =~= chunk_texts(children[0].events));
    } else {
        lemma_children_run_chunk_texts(children, opts);
    }
}

/// No chunk among `evs` carries text.
pub open spec fn no_chunk_text(evs: Seq<EventView>) -> bool {
    forall|i: int| 0 <= i < evs.len() && #[trigger] evs[i] is Chunk ==> evs[i]->Chunk_0 is None
}

proof fn lemma_events_run_no_text(st: ConcatState, evs: Seq<EventView>, opts: MapOptions)
    requires
        opts.final_source,
        no_chunk_text(st.out),
    ensures
        no_chunk_text(events_run(st, evs, opts).out),
    decreases evs.len(),
{
    if evs.len() > 0 {
        lemma_events_run_no_text(st, evs.drop_last(), opts);
        let s1 = events_run(st, evs.drop_last(), opts);
        let s2 = event_step(s1, evs.last(), opts);
        assert forall|i: int| 0 <= i < s2.out.len() && #[trigger] s2.out[i] is Chunk implies s2.out[i]->Chunk_0 is None by {
            if i < s1.out.len() {
                match evs.last() {
                    EventView::Chunk(t, m) => {
                        let closing = s1.need_close && (m.generated_line != 1 || m.generated_column != 0);
                        if closing {
                            assert(s2.out[i] == s1.out.push(close_event(s1))[i]);
                        }
                    },
                    _ => {},
                }
            }
        }
    }
}

proof fn lemma_children_run_no_text(children: Seq<StreamView>, opts: MapOptions)
    requires
        opts.final_source,
    ensures
        no_chunk_text(children_run(children, opts).out),
    decreases children.len(),
{
    if children.len() > 0 {
        let d = children.drop_last();
        lemma_children_run_no_text(d, opts);
        let st = children_run(d, opts);
        lemma_events_run_no_text(child_start(st), children.last().events, opts);
        let inner = events_run(child_start(st), children.last().events, opts);
        let s2 = child_end(inner, children.last().info, opts);
        assert forall|i: int| 0 <= i < s2.out.len() && #[trigger] s2.out[i] is Chunk implies s2.out[i]->Chunk_0 is None by {
            if i < inner.out.len() {
                assert(s2.out[i] == inner.out[i]);
            }
        }
    }
}

/// With final positions only, no chunk of a concatenation of several streams (or
/// none) carries text.
pub proof fn lemma_concat_final_no_text(children: Seq<StreamView>, opts: MapOptions)
    requires
        opts.final_source,
        children.len() != 1,
    ensures
        no_chunk_text(concat_stream(children, opts).events),
{
    lemma_children_run_no_text(children, opts);
}


/// Every chunk without original among `out` is the chunk that closes a mapping
/// at the start of a child `k` with `1 <= k < upto`.
pub open spec fn closes_at_starts(children: Seq<StreamView>, opts: MapOptions, out: Seq<EventView>, upto: int) -> bool {
    forall|i: int|
        0 <= i < out.len() && #[trigger] out[i] is Chunk && out[i]->Chunk_1.original is None ==> exists|k: int|
            1 <= k < upto && out[i] == #[trigger] close_event(children_run(children.take(k), opts))
}

proof fn lemma_events_run_closes(
    children: Seq<StreamView>,
    opts: MapOptions,
    k: int,
    st: ConcatState,
    evs: Seq<EventView>,
)
    requires
        opts.final_source,
        0 <= k < children.len(),
        st.line_offset == children_run(children.take(k), opts).line_offset,
        st.column_offset == children_run(children.take(k), opts).column_offset,
        st.need_close ==> k >= 1,
        closes_at_starts(children, opts, st.out, k + 1),
    ensures
        events_run(st, evs, opts).need_close ==> k >= 1,
        closes_at_starts(children, opts, events_run(st, evs, opts).out, k + 1),
    decreases evs.len(),
{
    if evs.len() > 0 {
        let d = evs.drop_last();
        lemma_events_run_closes(children, opts, k, st, d);
        lemma_events_run_keeps_offsets(st, d, opts);
        let s1 = events_run(st, d, opts);
        let s2 = event_step(s1, evs.last(), opts);
        let start = children_run(children.take(k), opts);
        assert(close_event(s1) == close_event(start));
        assert forall|i: int|
            0 <= i < s2.out.len() && #[trigger] s2.out[i] is Chunk && s2.out[i]->Chunk_1.original
                is None implies exists|k2: int|
            1 <= k2 < k + 1 && s2.out[i] == #[trigger] close_event(children_run(children.take(k2), opts)) by {
            if i < s1.out.len() {
                match evs.last() {
                    EventView::Chunk(t, m) => {
                        let closing = s1.need_close && (m.generated_line != 1 || m.generated_column != 0);
                        if closing {
                            assert(s2.out[i] == s1.out.push(close_event(s1))[i]);
                        }
                    },
                    EventView::Source(j, src, c) => {
                        if !s1.sources.dom().contains(src) {
                            assert(s2.out[i] == s1.out.push(EventView::Source(s1.sources.len() as u32, src, c))[i]);
                        }
                    },
                    EventView::Name(j, n) => {
                        if !s1.names.dom().contains(n) {
                            assert(s2.out[i] == s1.out.push(EventView::Name(s1.names.len() as u32, n))[i]);
                        }
                    },
                }
            } else {
                match evs.last() {
                    EventView::Chunk(t, m) => {
                        let closing = s1.need_close && (m.generated_line != 1 || m.generated_column != 0);
                        if closing && i == s1.out.len() {
                            assert(s2.out[i] == close_event(start));
                        }
                    },
                    _ => {},
                }
            }
        }
    }
}

proof fn lemma_children_run_closes(children: Seq<StreamView>, opts: MapOptions, m: int)
    requires
        opts.final_source,
        0 <= m <= children.len(),
    ensures
        children_run(children.take(m), opts).need_close ==> m >= 1,
        closes_at_starts(children, opts, children_run(children.take(m), opts).out, m),
    decreases m,
{
    if m > 0 {
        let k = m - 1;
        lemma_children_run_closes(children, opts, k);
        assert(children.take(m).drop_last() =~= children.take(k));
        assert(children.take(m).last() == children[k]);
        let start = children_run(children.take(k), opts);
        lemma_events_run_closes(children, opts, k, child_start(start), children[k].events);
        let inner = events_run(child_start(start), children[k].events, opts);
        lemma_events_run_keeps_offsets(child_start(start), children[k].events, opts);
        assert(close_event(inner) == close_event(start));
        let s2 = child_end(inner, children[k].info, opts);
        assert forall|i: int|
            0 <= i < s2.out.len() && #[trigger] s2.out[i] is Chunk && s2.out[i]->Chunk_1.original
                is None implies exists|k2: int|
            1 <= k2 < m && s2.out[i] == #[trigger] close_event(children_run(children.take(k2), opts)) by {
            if i < inner.out.len() {
                assert(s2.out[i] == inner.out[i]);
            } else {
                assert(s2.out[i] == close_event(start));
            }
        }
    }
}

/// With final positions only, every chunk without original in the stream of a
/// concatenation of several streams (or none) is the chunk that closes the last
/// mapping of a child at the start of the next child.
pub proof fn lemma_concat_final_closing(children: Seq<StreamView>, opts: MapOptions)
    requires
        opts.final_source,
        children.len() != 1,
    ensures
        closes_at_starts(children, opts, concat_stream(children, opts).events, children.len() as int),
{
    lemma_children_run_closes(children, opts, children.len() as int);
    assert(children.take(children.len() as int) =~= children);
}


/// The source that a child last reported under each of its own indices.
pub open spec fn child_reported_sources(evs: Seq<EventView>) -> Map<u32, Seq<char>>
    decreases evs.len(),
{
    if evs.len() == 0 {
        Map::empty()
    } else {
        let m = child_reported_sources(evs.drop_last());
        match evs.last() {
            EventView::Source(i, n, _) => m.insert(i, n),
            _ => m,
        }
    }
}

/// The name that a child last reported under each of its own indices.
pub open spec fn child_reported_names(evs: Seq<EventView>) -> Map<u32, Seq<char>>
    decreases evs.len(),
{
    if evs.len() == 0 {
        Map::empty()
    } else {
        let m = child_reported_names(evs.drop_last());
        match evs.last() {
            EventView::Name(i, n) => m.insert(i, n),
            _ => m,
        }
    }
}

/// The current child's indices map to the global indices of what the child
/// reported under them.
pub open spec fn indices_track(st: ConcatState, evs: Seq<EventView>) -> bool {
    &&& st.source_indices.dom() == child_reported_sources(evs).dom()
    &&& forall|i: u32|
        #[trigger] st.source_indices.dom().contains(i) ==> st.sources.dom().contains(child_reported_sources(evs)[i])
            && st.source_indices[i] == st.sources[child_reported_sources(evs)[i]]
    &&& st.name_indices.dom() == child_reported_names(evs).dom()
    &&& forall|i: u32|
        #[trigger] st.name_indices.dom().contains(i) ==> st.names.dom().contains(child_reported_names(evs)[i])
            && st.name_indices[i] == st.names[child_reported_names(evs)[i]]
}

proof fn lemma_events_run_track(st: ConcatState, evs: Seq<EventView>, opts: MapOptions)
    requires
        st.source_indices == Map::<u32, u32>::empty(),
        st.name_indices == Map::<u32, u32>::empty(),
    ensures
        indices_track(events_run(st, evs, opts), evs),
    decreases evs.len(),
{
    if evs.len() == 0 {
        assert(st.source_indices.dom() =~= child_reported_sources(evs).dom());
        assert(st.name_indices.dom() =~= child_reported_names(evs).dom());
    } else {
        let d = evs.drop_last();
        lemma_events_run_track(st, d, opts);
        let s1 = events_run(st, d, opts);
        let s2 = event_step(s1, evs.last(), opts);
        let rs = child_reported_sources(d);
        let rn = child_reported_names(d);
        match evs.last() {
            EventView::Chunk(c, m) => {},
            EventView::Source(i, n, c) => {
                assert(s2.source_indices.dom() =~= child_reported_sources(evs).dom());
                assert forall|i2: u32| #[trigger] s2.source_indices.dom().contains(i2) implies s2.sources.dom().contains(
                    child_reported_sources(evs)[i2],
                ) && s2.source_indices[i2] == s2.sources[child_reported_sources(evs)[i2]] by {
                    if i2 != i {
                        assert(s1.source_indices.dom().contains(i2));
                        if !s1.sources.dom().contains(n) {
                            assert(rs[i2] != n);
                        }
                    }
                }
            },
            EventView::Name(i, n) => {
                assert(s2.name_indices.dom() =~= child_reported_names(evs).dom());
                assert forall|i2: u32| #[trigger] s2.name_indices.dom().contains(i2) implies s2.names.dom().contains(
                    child_reported_names(evs)[i2],
                ) && s2.name_indices[i2] == s2.names[child_reported_names(evs)[i2]] by {
                    if i2 != i {
                        assert(s1.name_indices.dom().contains(i2));
                        if !s1.names.dom().contains(n) {
                            assert(rn[i2] != n);
                        }
                    }
                }
            },
        }
    }
}

/// The original location that a chunk of the concatenation carries for a child
/// mapping `m`: none when `m` has none or the child reported no source under its
/// source index; otherwise the global index of the source the child reported
/// under that index, and the global index of the name it reported under its
/// name index, if it reported one.
pub open spec fn placed_original(
    sources: Map<Seq<char>, u32>,
    names: Map<Seq<char>, u32>,
    reported_sources: Map<u32, Seq<char>>,
    reported_names: Map<u32, Seq<char>>,
    m: Mapping,
) -> Option<OriginalLocation> {
    match m.original {
        Some(o) => if reported_sources.dom().contains(o.source_index) {
            Some(
                OriginalLocation {
                    source_index: sources[reported_sources[o.source_index]],
                    original_line: o.original_line,
                    original_column: o.original_column,
                    name_index: match o.name_index {
                        Some(x) => if reported_names.dom().contains(x) {
                            Some(names[reported_names[x]])
                        } else {
                            None
                        },
                        None => None,
                    },
                },
            )
        } else {
            None
        },
        None => None,
    }
}

/// The mapping of chunk `j` of child `k`, as the concatenation passes it on.
/// Without final positions, the chunk is passed on with the original of
/// [`placed_original`], whose source index is announced, before the chunk,
/// with the source the child reported. With final positions, a chunk whose
/// source the child did not report makes no call of its own: at most the
/// closing chunk at the start of the child comes before it.
pub proof fn lemma_chunk_original(children: Seq<StreamView>, opts: MapOptions, k: int, j: int)
    requires
        0 <= k < children.len(),
        0 <= j < children[k].events.len(),
        children[k].events[j] is Chunk,
    ensures
        ({
            let evs = children[k].events;
            let start = children_run(children.take(k), opts);
            let before = events_run(child_start(start), evs.take(j), opts);
            let after = events_run(child_start(start), evs.take(j + 1), opts);
            let m = evs[j]->Chunk_1;
            let rs = child_reported_sources(evs.take(j));
            let rn = child_reported_names(evs.take(j));
            let o = placed_original(before.sources, before.names, rs, rn, m);
            &&& !opts.final_source ==> after.out.len() > 0 && after.out.last() is Chunk
                && after.out.last()->Chunk_1.original == o
            &&& o matches Some(loc) ==> exists|p: int|
                0 <= p < before.out.len() && #[trigger] before.out[p] is Source && before.out[p]->Source_0
                    == loc.source_index && before.out[p]->Source_1 == rs[m.original.unwrap().source_index]
            &&& (opts.final_source && o is None) ==> (after.out == before.out || after.out == before.out.push(
                close_event(start),
            ))
        }),
{
    let evs = children[k].events;
    let start = children_run(children.take(k), opts);
    let st0 = child_start(start);
    lemma_events_run_track(st0, evs.take(j), opts);
    lemma_children_run_numbering(children.take(k), opts);
    lemma_events_run_numbering(st0, evs.take(j), opts);
    lemma_events_run_keeps_offsets(st0, evs.take(j), opts);
    assert(evs.take(j + 1).drop_last() =~= evs.take(j));
    assert(evs.take(j + 1).last() == evs[j]);
    let before = events_run(st0, evs.take(j), opts);
    assert(close_event(before) == close_event(start));
    let m = evs[j]->Chunk_1;
    match m.original {
        Some(o) => {
            let rs = child_reported_sources(evs.take(j));
            if rs.dom().contains(o.source_index) {
                assert(before.source_indices.dom().contains(o.source_index));
                assert(before.sources.dom().contains(rs[o.source_index]));
            }
            match o.name_index {
                Some(x) => {
                    if child_reported_names(evs.take(j)).dom().contains(x) {
                        assert(before.name_indices.dom().contains(x));
                    }
                },
                None => {},
            }
        },
        None => {},
    }
}


/// The sources reported among `evs`, with their contents, in order.
pub open spec fn source_reports(evs: Seq<EventView>) -> Seq<(Seq<char>, Option<Seq<char>>)>
    decreases evs.len(),
{
    if evs.len() == 0 {
        Seq::empty()
    } else {
        let r = source_reports(evs.drop_last());
        match evs.last() {
            EventView::Source(_, n, c) => r.push((n, c)),
            _ => r,
        }
    }
}

/// The sources that the children report, child after child.
pub open spec fn children_source_reports(children: Seq<StreamView>) -> Seq<(Seq<char>, Option<Seq<char>>)>
    decreases children.len(),
{
    if children.len() == 0 {
        Seq::empty()
    } else {
        children_source_reports(children.drop_last()) + source_reports(children.last().events)
    }
}

/// The first report of each source, in order.
pub open spec fn first_source_reports(r: Seq<(Seq<char>, Option<Seq<char>>)>) -> Seq<(Seq<char>, Option<Seq<char>>)>
    decreases r.len(),
{
    if r.len() == 0 {
        Seq::empty()
    } else {
        let f = first_source_reports(r.drop_last());
        if r.drop_last().map_values(|x: (Seq<char>, Option<Seq<char>>)| x.0).contains(r.last().0) {
            f
        } else {
            f.push(r.last())
        }
    }
}

/// The names reported among `evs`, in order.
pub open spec fn name_reports(evs: Seq<EventView>) -> Seq<Seq<char>>
    decreases evs.len(),
{
    if evs.len() == 0 {
        Seq::empty()
    } else {
        let r = name_reports(evs.drop_last());
        match evs.last() {
            EventView::Name(_, n) => r.push(n),
            _ => r,
        }
    }
}

/// The names that the children report, child after child.
pub open spec fn children_name_reports(children: Seq<StreamView>) -> Seq<Seq<char>>
    decreases children.len(),
{
    if children.len() == 0 {
        Seq::empty()
    } else {
        children_name_reports(children.drop_last()) + name_reports(children.last().events)
    }
}

/// The first report of each name, in order.
pub open spec fn first_name_reports(r: Seq<Seq<char>>) -> Seq<Seq<char>>
    decreases r.len(),
{
    if r.len() == 0 {
        Seq::empty()
    } else {
        let f = first_name_reports(r.drop_last());
        if r.drop_last().contains(r.last()) {
            f
        } else {
            f.push(r.last())
        }
    }
}

pub open spec fn reported_names_of(r: Seq<(Seq<char>, Option<Seq<char>>)>) -> Seq<Seq<char>> {
    r.map_values(|x: (Seq<char>, Option<Seq<char>>)| x.0)
}

/// The announcements so far are the first reports so far, and the sources seen
/// are those reported.
pub open spec fn reports_inv(st: ConcatState, rs: Seq<(Seq<char>, Option<Seq<char>>)>, rn: Seq<Seq<char>>) -> bool {
    &&& source_reports(st.out) == first_source_reports(rs)
    &&& forall|n: Seq<char>| st.sources.dom().contains(n) <==> #[trigger] reported_names_of(rs).contains(n)
    &&& name_reports(st.out) == first_name_reports(rn)
    &&& forall|n: Seq<char>| st.names.dom().contains(n) <==> #[trigger] rn.contains(n)
}

proof fn lemma_reports_push_other(out: Seq<EventView>, e: EventView)
    ensures
        !(e is Source) ==> source_reports(out.push(e)) == source_reports(out),
        !(e is Name) ==> name_reports(out.push(e)) == name_reports(out),
{
    assert(out.push(e).drop_last() =~= out);
}

proof fn lemma_contains_push<A>(r: Seq<A>, a: A, x: A)
    ensures
        r.push(a).contains(x) <==> (r.contains(x) || a == x),
{
    if r.contains(x) {
        let i = choose|i: int| 0 <= i < r.len() && r[i] == x;
        assert(r.push(a)[i] == x);
    }
    if a == x {
        assert(r.push(a)[r.len() as int] == x);
    }
    if r.push(a).contains(x) {
        let i = choose|i: int| 0 <= i < r.push(a).len() && r.push(a)[i] == x;
        if i < r.len() {
            assert(r[i] == x);
        }
    }
}

proof fn lemma_reports_single(e: EventView)
    ensures
        source_reports(seq![e]) == match e {
            EventView::Source(_, n, c) => seq![(n, c)],
            _ => Seq::<(Seq<char>, Option<Seq<char>>)>::empty(),
        },
        name_reports(seq![e]) == match e {
            EventView::Name(_, n) => seq![n],
            _ => Seq::<Seq<char>>::empty(),
        },
{
    assert(seq![e].drop_last() =~= Seq::<EventView>::empty());
    assert(seq![e].last() == e);
    assert(source_reports(Seq::<EventView>::empty()) == Seq::<(Seq<char>, Option<Seq<char>>)>::empty());
    assert(name_reports(Seq::<EventView>::empty()) == Seq::<Seq<char>>::empty());
    match e {
        EventView::Source(_, n, c) => {
            assert(Seq::<(Seq<char>, Option<Seq<char>>)>::empty().push((n, c)) =~= seq![(n, c)]);
        },
        EventView::Name(_, n) => {
            assert(Seq::<Seq<char>>::empty().push(n) =~= seq![n]);
        },
        _ => {},
    }
}

proof fn lemma_event_step_reports(
    st: ConcatState,
    e: EventView,
    opts: MapOptions,
    rs: Seq<(Seq<char>, Option<Seq<char>>)>,
    rn: Seq<Seq<char>>,
)
    requires
        reports_inv(st, rs, rn),
    ensures
        reports_inv(event_step(st, e, opts), rs + source_reports(seq![e]), rn + name_reports(seq![e])),
{
    let st2 = event_step(st, e, opts);
    lemma_reports_single(e);
    match e {
        EventView::Chunk(c, m) => {
            assert(rs + source_reports(seq![e]) =~= rs);
            assert(rn + name_reports(seq![e]) =~= rn);
            let closing = st.need_close && (m.generated_line != 1 || m.generated_column != 0);
            let out1 = if closing {
                st.out.push(close_event(st))
            } else {
                st.out
            };
            lemma_reports_push_other(st.out, close_event(st));
            if st2.out.len() > out1.len() {
                assert(st2.out == out1.push(st2.out.last()));
                lemma_reports_push_other(out1, st2.out.last());
            }
        },
        EventView::Source(i, n, c) => {
            let rs2 = rs + source_reports(seq![e]);
            assert(rs2 =~= rs.push((n, c)));
            assert(rn + name_reports(seq![e]) =~= rn);
            assert(rs2.drop_last() =~= rs);
            assert(reported_names_of(rs2) =~= reported_names_of(rs).push(n));
            assert forall|x: Seq<char>| st2.sources.dom().contains(x) <==> #[trigger] reported_names_of(rs2).contains(x) by {
                lemma_contains_push(reported_names_of(rs), n, x);
            }
            if !st.sources.dom().contains(n) {
                let ev = EventView::Source(st.sources.len() as u32, n, c);
                assert(st.out.push(ev).drop_last() =~= st.out);
                lemma_reports_push_other(st.out, ev);
                assert(!reported_names_of(rs).contains(n));
            } else {
                assert(reported_names_of(rs).contains(n));
            }
        },
        EventView::Name(i, n) => {
            let rn2 = rn + name_reports(seq![e]);
            assert(rn2 =~= rn.push(n));
            assert(rs + source_reports(seq![e]) =~= rs);
            assert(rn2.drop_last() =~= rn);
            assert forall|x: Seq<char>| st2.names.dom().contains(x) <==> #[trigger] rn2.contains(x) by {
                lemma_contains_push(rn, n, x);
            }
            if !st.names.dom().contains(n) {
                let ev = EventView::Name(st.names.len() as u32, n);
                assert(st.out.push(ev).drop_last() =~= st.out);
                lemma_reports_push_other(st.out, ev);
            }
        },
    }
}

proof fn lemma_events_run_reports(
    st: ConcatState,
    evs: Seq<EventView>,
    opts: MapOptions,
    rs: Seq<(Seq<char>, Option<Seq<char>>)>,
    rn: Seq<Seq<char>>,
)
    requires
        reports_inv(st, rs, rn),
    ensures
        reports_inv(events_run(st, evs, opts), rs + source_reports(evs), rn + name_reports(evs)),
    decreases evs.len(),
{
    if evs.len() == 0 {
        assert(rs + source_reports(evs) =~= rs);
        assert(rn + name_reports(evs) =~= rn);
    } else {
        let d = evs.drop_last();
        let e = evs.last();
        lemma_events_run_reports(st, d, opts, rs, rn);
        lemma_event_step_reports(events_run(st, d, opts), e, opts, rs + source_reports(d), rn + name_reports(d));
        lemma_reports_single(e);
        assert(rs + source_reports(d) + source_reports(seq![e]) =~= rs + source_reports(evs));
        assert(rn + name_reports(d) + name_reports(seq![e]) =~= rn + name_reports(evs));
    }
}

proof fn lemma_children_run_reports(children: Seq<StreamView>, opts: MapOptions)
    ensures
        reports_inv(children_run(children, opts), children_source_reports(children), children_name_reports(children)),
    decreases children.len(),
{
    if children.len() == 0 {
        let st = initial_concat_state();
        assert(source_reports(st.out) == Seq::<(Seq<char>, Option<Seq<char>>)>::empty());
        assert(name_reports(st.out) == Seq::<Seq<char>>::empty());
        assert(reported_names_of(Seq::<(Seq<char>, Option<Seq<char>>)>::empty()) =~= Seq::<Seq<char>>::empty());
    } else {
        let d = children.drop_last();
        lemma_children_run_reports(d, opts);
        let st = children_run(d, opts);
        lemma_events_run_reports(
            child_start(st),
            children.last().events,
            opts,
            children_source_reports(d),
            children_name_reports(d),
        );
        let inner = events_run(child_start(st), children.last().events, opts);
        lemma_reports_push_other(inner.out, close_event(inner));
    }
}

/// In the stream of a concatenation of several streams (or none), the sources
/// announced are exactly the sources that the children report, each once, in
/// the order of its first report and with the content of that report; the names
/// announced are exactly the names that the children report, each once, in the
/// order of its first report.
pub proof fn lemma_concat_announces_first_reports(children: Seq<StreamView>, opts: MapOptions)
    requires
        children.len() != 1,
    ensures
        source_reports(concat_stream(children, opts).events) == first_source_reports(
            children_source_reports(children),
        ),
        name_reports(concat_stream(children, opts).events) == first_name_reports(children_name_reports(children)),
{
    lemma_children_run_reports(children, opts);
}


/// With final positions only, a chunk of child `k` whose source the child
/// reported is passed on without text, placed after the code of the children
/// before it: lines after theirs, and columns after theirs on the child's first
/// line only.
pub proof fn lemma_chunk_placed_final(children: Seq<StreamView>, opts: MapOptions, k: int, j: int)
    requires
        concat_ok(children, opts),
        children.len() != 1,
        opts.final_source,
        0 <= k < children.len(),
        0 <= j < children[k].events.len(),
        children[k].events[j] is Chunk,
        children[k].events[j]->Chunk_1.original is Some,
        child_reported_sources(children[k].events.take(j)).dom().contains(
            children[k].events[j]->Chunk_1.original.unwrap().source_index,
        ),
    ensures
        ({
            let (line, column) = end_position(stream_infos(children.take(k)));
            let st = events_run(
                child_start(children_run(children.take(k), opts)),
                children[k].events.take(j + 1),
                opts,
            );
            let m = children[k].events[j]->Chunk_1;
            &&& st.out.len() > 0
            &&& st.out.last() matches EventView::Chunk(t, placed) && t is None
                && placed.original is Some
                && placed.generated_line == line - 1 + m.generated_line
                && placed.generated_column == if m.generated_line == 1 {
                column + m.generated_column
            } else {
                m.generated_column as int
            }
        }),
{
    let st0 = children_run(children.take(k), opts);
    let evs = children[k].events;
    lemma_children_ok_prefix(children, opts, k);
    lemma_events_run_keeps_offsets(child_start(st0), evs, opts);
    lemma_events_ok_prefix(child_start(st0), evs, opts, j + 1);
    assert(evs.take(j + 1).drop_last() =~= evs.take(j));
    assert(evs.take(j + 1).last() == evs[j]);
    let inner = events_run(child_start(st0), evs.take(j), opts);
    lemma_events_run_keeps_offsets(child_start(st0), evs.take(j), opts);
    lemma_children_run_offsets(children.take(k), opts);
    lemma_events_run_track(child_start(st0), evs.take(j), opts);
    assert(inner.source_indices.dom().contains(evs[j]->Chunk_1.original.unwrap().source_index));
}

} // verus!
