use rspack_sources::{to_json, SourceMap};

fn map(sources: &[&str], contents: &[&str], names: &[&str], mappings: &str) -> SourceMap {
    SourceMap {
        file: None,
        source_root: None,
        sources: sources.iter().map(|s| s.to_string()).collect(),
        sources_content: contents.iter().map(|s| s.to_string()).collect(),
        names: names.iter().map(|s| s.to_string()).collect(),
        mappings: mappings.to_string(),
        ignore_list: None,
        debug_id: None,
    }
}

#[test]
fn writes_the_fields_in_order() {
    let sm = map(&["console.js", "hello.md"], &["a\n", "b"], &["x"], ";AAAA;AACA;ACDA");
    assert_eq!(
        to_json(&sm),
        r#"{"version":3,"sources":["console.js","hello.md"],"sourcesContent":["a\n","b"],"names":["x"],"mappings":";AAAA;AACA;ACDA"}"#
    );
}

#[test]
fn empty_contents_are_left_out() {
    let sm = map(&["a.js"], &["", ""], &[], "AAAA");
    assert_eq!(to_json(&sm), r#"{"version":3,"sources":["a.js"],"names":[],"mappings":"AAAA"}"#);
    let sm = map(&[], &[], &[], "");
    assert_eq!(to_json(&sm), r#"{"version":3,"sources":[],"names":[],"mappings":""}"#);
}

#[test]
fn escapes_strings() {
    let sm = map(&["a\"b\\c"], &["tab\there\u{1}é"], &[], "");
    assert_eq!(
        to_json(&sm),
        "{\"version\":3,\"sources\":[\"a\\\"b\\\\c\"],\"sourcesContent\":[\"tab\\there\\u0001é\"],\"names\":[],\"mappings\":\"\"}"
    );
}

#[test]
fn writes_optional_fields() {
    let mut sm = map(&["a.js"], &[], &[], "AAAA");
    sm.file = Some("out.js".to_string());
    sm.source_root = Some("/src".to_string());
    sm.ignore_list = Some(vec![0, 42, 4294967295]);
    sm.debug_id = Some("85314830-023f-4cf1-a267-535f4e37bb17".to_string());
    // "file" and "sourceRoot" are escaped JSON strings, quoted once.
    assert_eq!(
        to_json(&sm),
        r#"{"version":3,"file":"out.js","sourceRoot":"/src","sources":["a.js"],"names":[],"mappings":"AAAA","ignoreList":[0,42,4294967295],"debugId":"85314830-023f-4cf1-a267-535f4e37bb17"}"#
    );
}

#[test]
fn file_and_source_root_are_escaped_once() {
    let mut sm = map(&[], &[], &[], "");
    sm.file = Some("a\"b\n".to_string());
    sm.source_root = Some("r\\".to_string());
    assert_eq!(
        to_json(&sm),
        r#"{"version":3,"file":"a\"b\n","sourceRoot":"r\\","sources":[],"names":[],"mappings":""}"#
    );
}
