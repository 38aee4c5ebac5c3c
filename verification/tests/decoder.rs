use rspack_sources::{Mapping, MappingsDecoder, OriginalLocation};

fn decode(s: &str) -> Vec<Mapping> {
    let mut out = Vec::new();
    MappingsDecoder::new(s).decode_into(&mut out);
    out
}

fn mapped(line: u32, column: u32, source: u32, oline: u32, ocol: u32, name: Option<u32>) -> Mapping {
    Mapping {
        generated_line: line,
        generated_column: column,
        original: Some(OriginalLocation {
            source_index: source,
            original_line: oline,
            original_column: ocol,
            name_index: name,
        }),
    }
}

#[test]
fn decodes_one_mapping_per_line() {
    // Original lines count from 1, as generated lines do.
    assert_eq!(
        decode(";AAAA;AACA;ACDA"),
        vec![
            mapped(2, 0, 0, 1, 0, None),
            mapped(3, 0, 0, 2, 0, None),
            mapped(4, 0, 1, 1, 0, None),
        ]
    );
}

#[test]
fn decodes_segments_of_one_field_and_relative_columns() {
    let unmapped = |line: u32, column: u32| Mapping { generated_line: line, generated_column: column, original: None };
    assert_eq!(
        decode("AAAA,K,CCAA,M;ADAA;;ACAA"),
        vec![
            mapped(1, 0, 0, 1, 0, None),
            unmapped(1, 5),
            mapped(1, 6, 1, 1, 0, None),
            unmapped(1, 12),
            mapped(2, 0, 0, 1, 0, None),
            mapped(4, 0, 1, 1, 0, None),
        ]
    );
}

#[test]
fn decodes_names_and_multi_digit_values() {
    // "gB" is 16 with a continuation digit; "C" adds one to the name index.
    assert_eq!(decode("gBAAAC"), vec![mapped(1, 16, 0, 1, 0, Some(1))]);
    // Negative deltas: "D" is -1.
    assert_eq!(decode("KAAA,DAAA"), vec![mapped(1, 5, 0, 1, 0, None), mapped(1, 4, 0, 1, 0, None)]);
}

#[test]
fn separators_alone_and_other_bytes_give_nothing() {
    assert_eq!(decode(""), vec![]);
    assert_eq!(decode(";;,;"), vec![]);
    // Two or three fields give no mapping; unknown bytes are skipped.
    assert_eq!(decode("AA,AAA; \n"), vec![]);
    assert_eq!(decode("A A\nA A"), vec![mapped(1, 0, 0, 1, 0, None)]);
}

#[test]
fn decode_into_appends() {
    let mut out = vec![Mapping { generated_line: 9, generated_column: 9, original: None }];
    MappingsDecoder::new("E").decode_into(&mut out);
    assert_eq!(out.len(), 2);
    assert_eq!(out[1], Mapping { generated_line: 1, generated_column: 2, original: None });
}

#[test]
fn prefix_up_to_a_separator_decodes_to_a_prefix() {
    let whole = decode("AAAA,KACA;AAAC");
    let prefix = decode("AAAA,KACA;");
    assert_eq!(&whole[..prefix.len()], &prefix[..]);
    // Lines never go down.
    for w in whole.windows(2) {
        assert!(w[0].generated_line <= w[1].generated_line);
    }
}

#[test]
fn bytes_outside_the_alphabet_change_nothing() {
    assert_eq!(decode("AA!AA,C A*CA;A"), decode("AAAA,CACA;A"));
}

#[test]
fn characters_outside_the_alphabet_are_dropped_anywhere() {
    // Inside a value ("gB" is one value split by 'é'), and between fields.
    assert_eq!(decode("AAgéB,Aé!AAA"), decode("AAgB,AAAA"));
}
