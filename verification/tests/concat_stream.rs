use rspack_sources::concat_stream::{concat_chunks, concat_sections};
use rspack_sources::stream::{Offset, SectionEntry, SectionOutput, StreamEvent, StreamOutput};
use rspack_sources::{GeneratedInfo, MapOptions, Mapping, OriginalLocation, SourceMap};

fn info(line: u32, column: u32) -> GeneratedInfo {
    GeneratedInfo { generated_line: line, generated_column: column }
}

fn mapped(line: u32, column: u32, source: u32, name: Option<u32>) -> Mapping {
    Mapping {
        generated_line: line,
        generated_column: column,
        original: Some(OriginalLocation { source_index: source, original_line: 1, original_column: 0, name_index: name }),
    }
}

fn child(source: &str, text: &str, end: GeneratedInfo) -> StreamOutput {
    StreamOutput {
        events: vec![
            StreamEvent::Source(0, source.to_string(), Some(text.to_string())),
            StreamEvent::Name(0, "log".to_string()),
            StreamEvent::Chunk(Some(text.to_string()), mapped(1, 0, 0, Some(0))),
        ],
        info: end,
    }
}

#[test]
fn shared_sources_and_names_are_announced_once() {
    let children = vec![child("a.js", "x", info(1, 1)), child("b.js", "y\n", info(2, 0)), child("a.js", "z", info(1, 1))];
    let out = concat_chunks(&children, &MapOptions::default());
    let sources: Vec<(u32, String)> = out
        .events
        .iter()
        .filter_map(|e| match e {
            StreamEvent::Source(i, s, _) => Some((*i, s.clone())),
            _ => None,
        })
        .collect();
    assert_eq!(sources, vec![(0, "a.js".to_string()), (1, "b.js".to_string())]);
    let names: Vec<u32> = out
        .events
        .iter()
        .filter_map(|e| match e {
            StreamEvent::Name(i, _) => Some(*i),
            _ => None,
        })
        .collect();
    assert_eq!(names, vec![0]);
    let chunks: Vec<Mapping> = out
        .events
        .iter()
        .filter_map(|e| match e {
            StreamEvent::Chunk(_, m) => Some(*m),
            _ => None,
        })
        .collect();
    // The second child starts after "x" on line 1; the third one on line 2.
    assert_eq!(chunks, vec![mapped(1, 0, 0, Some(0)), mapped(1, 1, 1, Some(0)), mapped(2, 0, 0, Some(0))]);
    assert_eq!(out.info, info(2, 1));
}

#[test]
fn a_single_stream_is_passed_on() {
    let children = vec![child("a.js", "x", info(1, 1))];
    let out = concat_chunks(&children, &MapOptions::default());
    assert_eq!(out.events.len(), 3);
    assert_eq!(out.info, info(1, 1));
}

#[test]
fn final_positions_close_a_mapping_before_unmapped_code() {
    let mut options = MapOptions::default();
    options.final_source = true;
    let raw = StreamOutput { events: vec![], info: info(1, 3) };
    let children = vec![child("a.js", "x", info(1, 1)), raw, child("b.js", "y", info(1, 1))];
    let out = concat_chunks(&children, &options);
    let chunks: Vec<(Option<String>, Mapping)> = out
        .events
        .iter()
        .filter_map(|e| match e {
            StreamEvent::Chunk(c, m) => Some((c.clone(), *m)),
            _ => None,
        })
        .collect();
    assert_eq!(
        chunks,
        vec![
            (None, mapped(1, 0, 0, Some(0))),
            (None, Mapping { generated_line: 1, generated_column: 1, original: None }),
            (None, mapped(1, 4, 1, Some(0))),
        ]
    );
}

fn some_map() -> SourceMap {
    SourceMap {
        file: None,
        source_root: None,
        sources: vec!["a.js".to_string()],
        sources_content: vec![],
        names: vec![],
        mappings: "AAAA".to_string(),
        ignore_list: None,
        debug_id: None,
    }
}

#[test]
fn sections_are_moved_to_where_each_child_starts() {
    let children = vec![
        SectionOutput {
            sections: vec![SectionEntry { offset: Offset { line: 0, column: 0 }, map: Some(some_map()) }],
            info: info(2, 5),
        },
        SectionOutput { sections: vec![SectionEntry { offset: Offset { line: 0, column: 0 }, map: None }], info: info(1, 3) },
        SectionOutput {
            sections: vec![SectionEntry { offset: Offset { line: 1, column: 2 }, map: Some(some_map()) }],
            info: info(3, 0),
        },
    ];
    let out = concat_sections(children);
    let offsets: Vec<(u32, u32, bool)> =
        out.sections.iter().map(|s| (s.offset.line, s.offset.column, s.map.is_some())).collect();
    // The second child starts on line 2 (counted from 1) at column 5 and has one
    // line, so the third starts on line 2 at column 8; its section is on its own
    // second line, where columns are not moved.
    assert_eq!(offsets, vec![(0, 0, true), (1, 5, false), (2, 2, true)]);
    assert_eq!(out.info, info(4, 0));
}

#[test]
fn one_line_children_continue_the_line() {
    let one_line = || SectionOutput {
        sections: vec![SectionEntry { offset: Offset { line: 0, column: 1 }, map: None }],
        info: info(1, 2),
    };
    let out = concat_sections(vec![one_line(), one_line(), one_line()]);
    let offsets: Vec<(u32, u32)> = out.sections.iter().map(|s| (s.offset.line, s.offset.column)).collect();
    assert_eq!(offsets, vec![(0, 1), (0, 3), (0, 5)]);
    // The same end as the chunk stream of these children: one line, six columns.
    assert_eq!(out.info, info(1, 6));
}

#[test]
fn a_source_keeps_the_content_of_its_first_report() {
    let children = vec![child("a.js", "x", info(1, 1)), child("a.js", "other", info(1, 5))];
    let out = concat_chunks(&children, &MapOptions::default());
    let sources: Vec<(u32, String, Option<String>)> = out
        .events
        .iter()
        .filter_map(|e| match e {
            StreamEvent::Source(i, s, c) => Some((*i, s.clone(), c.clone())),
            _ => None,
        })
        .collect();
    assert_eq!(sources, vec![(0, "a.js".to_string(), Some("x".to_string()))]);
}

#[test]
fn unreported_sources_give_no_original() {
    // The child maps to its source 3 and name 7, which it never reported.
    let unreported = StreamOutput {
        events: vec![StreamEvent::Chunk(Some("q".to_string()), mapped(1, 0, 3, Some(7)))],
        info: info(1, 1),
    };
    let out = concat_chunks(&vec![child("a.js", "x", info(1, 1)), unreported.clone()], &MapOptions::default());
    let last = out.events.last().unwrap();
    match last {
        StreamEvent::Chunk(text, m) => {
            assert_eq!(text.as_deref(), Some("q"));
            assert_eq!(*m, Mapping { generated_line: 1, generated_column: 1, original: None });
        }
        _ => panic!("expected a chunk"),
    }
    // With final positions, such a chunk makes no call of its own.
    let mut final_options = MapOptions::default();
    final_options.final_source = true;
    let out = concat_chunks(&vec![child("a.js", "x", info(1, 1)), unreported], &final_options);
    let chunks = out.events.iter().filter(|e| matches!(e, StreamEvent::Chunk(_, _))).count();
    // Only the first child's chunk: the second child's chunk starts at its own
    // first position, so nothing is closed there, and it makes no call.
    assert_eq!(chunks, 1);
}
