use rspack_sources::{ConcatSource, MapOptions, RawBufferSource, RawStringSource};

#[test]
fn index_map_returns_none_for_only_raw_sources() {
    let mut source = ConcatSource::new(vec![
        RawStringSource::from_str("Hello World\n").boxed(),
        RawStringSource::from_str("Bye\n").boxed(),
    ]);
    let options = MapOptions::default();
    assert!(source.index_map(&options).is_none());
}

#[test]
fn should_return_null_as_map_when_only_generated_code_is_concatenated() {
    let mut source = ConcatSource::new(vec![
        RawStringSource::from_str("Hello World\n").boxed(),
        RawStringSource::from_string("Hello World\n".to_string()).boxed(),
        RawStringSource::from_str("").boxed(),
    ]);

    let result_text = source.source();
    let result_map = source.map(&MapOptions::default());
    let result_list_map = source.map(&MapOptions::new(false));

    assert_eq!(result_text, "Hello World\nHello World\n");
    assert!(result_map.is_none());
    assert!(result_list_map.is_none());
}

#[test]
fn should_allow_to_concat_buffer_sources() {
    let mut source = ConcatSource::new(vec![
        RawStringSource::from_str("a").boxed(),
        RawStringSource::from_str("b").boxed(),
        RawStringSource::from_str("c").boxed(),
    ]);
    assert_eq!(source.source(), "abc");
    assert!(source.map(&MapOptions::default()).is_none());
}

#[test]
fn should_flatten_nested_concat_sources() {
    let inner_concat = ConcatSource::new(vec![
        RawStringSource::from_str("Hello ").boxed(),
        RawStringSource::from_str("World").boxed(),
    ]);

    let mut outer_concat = ConcatSource::new(vec![
        inner_concat.boxed(),
        RawStringSource::from_str("!").boxed(),
        ConcatSource::new(vec![
            RawStringSource::from_str(" How").boxed(),
            RawStringSource::from_str(" are").boxed(),
        ])
        .boxed(),
        RawStringSource::from_str(" you?").boxed(),
    ]);

    assert_eq!(outer_concat.source(), "Hello World! How are you?");
    // The nested concatenations are flattened, and the raw children merged.
    assert_eq!(outer_concat.optimized_children().len(), 1);
}

#[test]
fn test_self_equality_no_deadlock() {
    let mut concat_source = ConcatSource::new(vec![
        RawStringSource::from_str("Hello ").boxed(),
        RawStringSource::from_str("World").boxed(),
    ]);
    assert_eq!(&concat_source, &concat_source);

    concat_source.source();

    assert_eq!(&concat_source, &concat_source);
}

#[test]
fn test_debug_output() {
    let inner_concat = ConcatSource::new(vec![
        RawStringSource::from_str("Hello ").boxed(),
        RawStringSource::from_str("World").boxed(),
    ]);

    let mut outer_concat = ConcatSource::new(vec![
        inner_concat.boxed(),
        RawStringSource::from_str("!").boxed(),
        ConcatSource::new(vec![
            RawStringSource::from_str(" How").boxed(),
            RawStringSource::from_str(" are").boxed(),
        ])
        .boxed(),
        RawStringSource::from_str(" you?\n").boxed(),
    ]);

    assert_eq!(
        outer_concat.debug_string(),
        r#"ConcatSource::new(vec![
  RawStringSource::from_static("Hello ").boxed(),
  RawStringSource::from_static("World").boxed(),
  RawStringSource::from_static("!").boxed(),
  RawStringSource::from_static(" How").boxed(),
  RawStringSource::from_static(" are").boxed(),
  RawStringSource::from_static(" you?\n").boxed(),
]).boxed()"#
    );

    outer_concat.source();

    assert_eq!(
        outer_concat.debug_string(),
        r#"ConcatSource::new(vec![
  RawStringSource::from_static("Hello World! How are you?\n").boxed(),
]).boxed()"#
    );

    outer_concat.add(RawStringSource::from_str("I'm fine.").boxed());

    assert_eq!(
        outer_concat.debug_string(),
        r#"ConcatSource::new(vec![
  RawStringSource::from_static("Hello World! How are you?\n").boxed(),
  RawStringSource::from_static("I'm fine.").boxed(),
]).boxed()"#
    );

    outer_concat.source();

    assert_eq!(
        outer_concat.debug_string(),
        r#"ConcatSource::new(vec![
  RawStringSource::from_static("Hello World! How are you?\nI'm fine.").boxed(),
]).boxed()"#
    );
}

#[test]
fn size_buffer_and_rope_agree_with_source() {
    let mut source = ConcatSource::new(vec![
        RawStringSource::from_str("Hello World\n").boxed(),
        RawStringSource::from_str("é🎉\n").boxed(),
    ]);
    let text = "Hello World\né🎉\n";
    assert_eq!(source.size(), text.len());
    assert_eq!(source.buffer(), text.as_bytes().to_vec());
    assert_eq!(source.rope(), vec![text.to_string()]);
    assert_eq!(source.source(), text);
}

#[test]
fn add_appends_and_empty_concat_is_empty() {
    let mut source = ConcatSource::default();
    assert_eq!(source.source(), "");
    assert_eq!(source.size(), 0);
    assert_eq!(source.optimized_children().len(), 0);
    source.add(RawStringSource::from_str("one ").boxed());
    assert_eq!(source.optimized_children().len(), 1);
    source.add(ConcatSource::new(vec![RawStringSource::from_str("two").boxed()]).boxed());
    assert_eq!(source.source(), "one two");
}

#[test]
fn equality_compares_optimized_children() {
    let a = ConcatSource::new(vec![
        RawStringSource::from_str("ab").boxed(),
        RawStringSource::from_str("c").boxed(),
    ]);
    let b = ConcatSource::new(vec![
        RawStringSource::from_str("a").boxed(),
        RawStringSource::from_str("bc").boxed(),
    ]);
    let c = ConcatSource::new(vec![RawStringSource::from_str("abd").boxed()]);
    let empty = ConcatSource::default();
    assert_eq!(&a, &b);
    assert_ne!(&a, &c);
    assert_ne!(&a, &empty);
    let copy = a.clone();
    assert_eq!(&copy, &a);
}

#[test]
fn raw_source_stream_lines_and_end_position() {
    let raw = RawStringSource::from_str("ab\n🎉c");
    let info = raw.generated_info();
    assert_eq!(info.generated_line, 2);
    // "🎉c" is two UTF-16 code units and one more.
    assert_eq!(info.generated_column, 3);
    let stream = raw.chunks(&MapOptions::default());
    assert_eq!(stream.events.len(), 2);
    let mut final_options = MapOptions::default();
    final_options.final_source = true;
    assert_eq!(raw.chunks(&final_options).events.len(), 0);
}

#[test]
fn stream_of_concatenation_shifts_sections() {
    let mut source = ConcatSource::new(vec![
        RawStringSource::from_str("a\n").boxed(),
        RawStringSource::from_str("b").boxed(),
    ]);
    let stream = source.to_stream();
    assert_eq!(stream.sections_size_hint(), 1);
    let sections = stream.sections();
    assert_eq!(sections.sections.len(), 1);
    assert_eq!(sections.sections[0].offset.line, 0);
    assert_eq!(sections.info.generated_line, 2);
    assert_eq!(sections.info.generated_column, 1);
}

#[test]
fn buffer_children_stay_apart_from_merged_text() {
    let mut source = ConcatSource::new(vec![
        RawStringSource::from_str("a").boxed(),
        RawBufferSource::from_vec(b"b\n".to_vec()).boxed(),
        RawStringSource::from_str("c").boxed(),
        RawStringSource::from_str("d").boxed(),
    ]);
    assert_eq!(source.source(), "ab\ncd");
    assert_eq!(source.buffer(), b"ab\ncd".to_vec());
    assert_eq!(source.size(), 5);
    // "c" and "d" are merged; the buffer keeps its place between the texts.
    assert_eq!(source.optimized_children().len(), 3);
    assert_eq!(
        source.debug_string(),
        r#"ConcatSource::new(vec![
  RawStringSource::from_static("a").boxed(),
  RawBufferSource::from([98, 10]).boxed(),
  RawStringSource::from_static("cd").boxed(),
]).boxed()"#
    );
    assert!(source.map(&MapOptions::default()).is_none());
    assert!(source.index_map(&MapOptions::default()).is_none());
}

#[test]
fn buffer_source_reads_its_bytes_as_text() {
    let buffer = RawBufferSource::from_bytes(&[104, 105, 0xff]);
    assert_eq!(buffer.size(), 3);
    assert_eq!(buffer.buffer().clone(), vec![104, 105, 0xff]);
    // An invalid byte becomes U+FFFD.
    assert_eq!(buffer.source(), "hi\u{fffd}");
    assert_eq!(buffer.debug_string(2), "  RawBufferSource::from([104, 105, 255]).boxed()");
    let copy = buffer.clone();
    assert!(copy.same_bytes(&buffer));
    assert!(!copy.same_bytes(&RawBufferSource::from_vec(vec![104, 105])));
}

#[test]
fn stream_of_buffer_children_counts_their_lines() {
    let mut source = ConcatSource::new(vec![
        RawBufferSource::from_vec(b"x\ny".to_vec()).boxed(),
        RawStringSource::from_str("z\n").boxed(),
    ]);
    let stream = source.to_stream();
    assert_eq!(stream.sections_size_hint(), 2);
    let sections = stream.sections();
    assert_eq!(sections.sections.len(), 2);
    assert_eq!(sections.sections[1].offset.line, 1);
    assert_eq!(sections.sections[1].offset.column, 1);
    assert_eq!(sections.info.generated_line, 3);
    assert_eq!(sections.info.generated_column, 0);
    let chunks = stream.chunks(&MapOptions::default());
    assert_eq!(chunks.info.generated_line, 3);
    // Both streams end at the same place.
    assert_eq!(chunks.info, sections.info);
}

#[test]
fn one_line_children_sections_end_like_chunks() {
    let mut source = ConcatSource::new(vec![
        RawBufferSource::from_vec(b"ab".to_vec()).boxed(),
        RawStringSource::from_str("cd").boxed(),
        RawBufferSource::from_vec(b"ef".to_vec()).boxed(),
    ]);
    let stream = source.to_stream();
    let sections = stream.sections();
    let starts: Vec<(u32, u32)> = sections.sections.iter().map(|s| (s.offset.line, s.offset.column)).collect();
    assert_eq!(starts, vec![(0, 0), (0, 2), (0, 4)]);
    let chunks = stream.chunks(&MapOptions::default());
    assert_eq!(sections.info.generated_line, 1);
    assert_eq!(sections.info.generated_column, 6);
    assert_eq!(chunks.info, sections.info);
}

#[test]
fn add_appends_bytes_and_size() {
    let mut source = ConcatSource::new(vec![RawStringSource::from_str("é\n").boxed()]);
    let before = source.size();
    source.add(RawBufferSource::from_vec(vec![0xff, b'x']).boxed());
    assert_eq!(source.size(), before + 2);
    assert_eq!(source.buffer(), vec![0xc3, 0xa9, b'\n', 0xff, b'x']);
}

#[test]
fn checked_streams_of_buffers_and_concatenations() {
    let buffer = RawBufferSource::from_vec(b"a\nbc".to_vec());
    let chunks = buffer.try_chunks(&MapOptions::default()).unwrap();
    assert_eq!(chunks.events.len(), 2);
    assert_eq!(chunks.info.generated_line, 2);
    assert_eq!(chunks.info.generated_column, 2);
    let sections = buffer.try_sections().unwrap();
    assert_eq!(sections.sections.len(), 1);
    assert_eq!(sections.info.generated_column, 2);

    let mut source = ConcatSource::new(vec![
        RawStringSource::from_str("x").boxed(),
        buffer.clone().boxed(),
    ]);
    let stream = source.to_stream();
    let chunks = stream.try_chunks(&MapOptions::default()).unwrap();
    assert_eq!(chunks.info.generated_line, 2);
    assert_eq!(chunks.info.generated_column, 2);
    let sections = stream.try_sections().unwrap();
    assert_eq!(sections.sections.len(), 2);
    assert_eq!(sections.info, chunks.info);
    assert!(rspack_sources::concat_source::fits_positions("a\nb"));
}

#[test]
fn optimize_merges_runs_and_is_stable() {
    let mut children = vec![
        RawStringSource::from_str("a").boxed(),
        RawStringSource::from_str("b").boxed(),
        RawBufferSource::from_vec(b"c".to_vec()).boxed(),
        RawStringSource::from_str("d").boxed(),
    ];
    let optimized = rspack_sources::concat_source::optimize(&mut children);
    assert!(children.is_empty());
    assert_eq!(optimized.len(), 3);
    let mut again: Vec<_> = optimized.iter().map(|c| match c {
        rspack_sources::BoxSource::RawString(r) => r.clone().boxed(),
        rspack_sources::BoxSource::RawBuffer(r) => r.clone().boxed(),
        rspack_sources::BoxSource::Concat(c) => c.clone().boxed(),
    }).collect();
    let twice = rspack_sources::concat_source::optimize(&mut again);
    assert_eq!(twice.len(), 3);
}

#[test]
fn source_bytes_equal_buffer_for_valid_utf8() {
    let mut source = ConcatSource::new(vec![
        RawStringSource::from_str("é").boxed(),
        RawBufferSource::from_vec("🎉".as_bytes().to_vec()).boxed(),
    ]);
    assert_eq!(source.source().into_bytes(), source.buffer());
}
