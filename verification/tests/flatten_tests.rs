use xml_flatten::decode::decode_attr_value;
use xml_flatten::decode::replace_amp;
use xml_flatten::decode::trim_xml_ws;
use xml_flatten::events::ParsedEvent;
use xml_flatten::flatten::flatten_bytes;
use xml_flatten::flatten::flatten_events;
use xml_flatten::flatten::FlattenConfig;
use xml_flatten::flatten::FlattenError;
use xml_flatten::flatten::FlattenOutput;
use xml_flatten::path_stack::to_key;
use xml_flatten::path_stack::PathStack;
use xml_flatten::record::Record;

fn config(sep: &str, boundary: &str) -> FlattenConfig {
    FlattenConfig {
        key_separator: sep.to_string(),
        row_boundary: boundary.as_bytes().to_vec(),
    }
}

fn values(rec: &Record, key: &str) -> Option<Vec<String>> {
    rec.get(&key.to_string()).map(|v| v.clone())
}

fn run(input: &[u8], sep: &str, boundary: &str) -> Result<FlattenOutput, FlattenError> {
    flatten_bytes(input, &config(sep, boundary))
}

#[test]
fn scenario_two_rows_with_attributes() {
    let input = br#"<ROOT><ROW a="1"><X>hi</X></ROW><ROW a="2"><X>bye</X></ROW></ROOT>"#;
    let out = run(input, ".", "ROW").unwrap();
    assert_eq!(out.records.len(), 2);
    assert_eq!(values(&out.records[0], "ROW.a"), Some(vec!["1".to_string()]));
    assert_eq!(values(&out.records[0], "ROW.X"), Some(vec!["hi".to_string()]));
    assert_eq!(out.records[0].len(), 2);
    assert_eq!(values(&out.records[1], "ROW.a"), Some(vec!["2".to_string()]));
    assert_eq!(values(&out.records[1], "ROW.X"), Some(vec!["bye".to_string()]));
    assert_eq!(out.records[1].len(), 2);
    assert!(out.leftover.is_empty());
    assert!(out.leftover_stack.is_empty());
    assert_eq!(out.truncated, None);
}

#[test]
fn scenario_sibling_elements_accumulate_in_order() {
    let input = b"<ROW><X>a</X><X>b</X></ROW>";
    let out = run(input, ".", "ROW").unwrap();
    assert_eq!(out.records.len(), 1);
    assert_eq!(
        values(&out.records[0], "ROW.X"),
        Some(vec!["a".to_string(), "b".to_string()])
    );
    assert_eq!(out.records[0].len(), 1);
}

#[test]
fn scenario_malformed_tail_keeps_completed_rows() {
    let input = b"<ROW><X>hi</X></ROW><!";
    let out = run(input, ".", "ROW").unwrap();
    assert_eq!(out.records.len(), 1);
    assert_eq!(values(&out.records[0], "ROW.X"), Some(vec!["hi".to_string()]));
    assert!(out.truncated.is_some());
    // Truncation fell exactly at a row boundary: nothing for diagnostics.
    assert!(out.leftover.is_empty());
    assert!(out.leftover_stack.is_empty());
}

#[test]
fn scenario_attribute_with_literal_ampersand_falls_back() {
    let input = br#"<ROW a="M &amp;&amp; N & P"></ROW>"#;
    let out = run(input, ".", "ROW").unwrap();
    assert_eq!(out.records.len(), 1);
    assert_eq!(
        values(&out.records[0], "ROW.a"),
        Some(vec!["M && N & P".to_string()])
    );
}

#[test]
fn attribute_with_valid_entities_unescapes() {
    let input = br#"<ROW a="1 &lt; 2 &amp; 3 &gt; 2"></ROW>"#;
    let out = run(input, ".", "ROW").unwrap();
    assert_eq!(
        values(&out.records[0], "ROW.a"),
        Some(vec!["1 < 2 & 3 > 2".to_string()])
    );
}

#[test]
fn whitespace_only_text_creates_no_key() {
    let input = b"<ROW>\n   <X>v</X>\n\t </ROW>";
    let out = run(input, ".", "ROW").unwrap();
    assert_eq!(out.records.len(), 1);
    assert_eq!(values(&out.records[0], "ROW.X"), Some(vec!["v".to_string()]));
    assert_eq!(out.records[0].len(), 1);
    for (_, vals) in out.records[0].entries() {
        assert!(!vals.iter().any(|v| v.is_empty()));
    }
}

#[test]
fn text_values_are_trimmed() {
    let input = b"<ROW><X>  spaced out \n</X></ROW>";
    let out = run(input, ".", "ROW").unwrap();
    assert_eq!(
        values(&out.records[0], "ROW.X"),
        Some(vec!["spaced out".to_string()])
    );
}

#[test]
fn keys_are_relative_to_innermost_boundary() {
    let input = b"<A><B><ROW><X>v</X></ROW></B></A>";
    let out = run(input, ".", "ROW").unwrap();
    assert_eq!(out.records.len(), 1);
    assert_eq!(values(&out.records[0], "ROW.X"), Some(vec!["v".to_string()]));
}

#[test]
fn record_count_matches_boundary_closes() {
    let input = b"<A><B><ROW><X>1</X></ROW></B><B><ROW><X>2</X></ROW><ROW><X>3</X></ROW></B></A>";
    let out = run(input, ".", "ROW").unwrap();
    assert_eq!(out.records.len(), 3);
    assert!(out.leftover.is_empty());
    assert!(out.leftover_stack.is_empty());
}

#[test]
fn unflushed_values_surface_as_leftover() {
    let input = b"<A><X>v</X></A>";
    let out = run(input, ".", "ROW").unwrap();
    assert_eq!(out.records.len(), 0);
    assert!(!out.leftover.is_empty());
    assert_eq!(values(&out.leftover, "A.X"), Some(vec!["v".to_string()]));
    assert!(out.leftover_stack.is_empty());
    assert_eq!(out.truncated, None);
}

#[test]
fn truncated_document_leaves_open_stack() {
    let input = b"<A><ROW><X>v</X>";
    let out = run(input, ".", "ROW").unwrap();
    assert_eq!(out.records.len(), 0);
    assert!(!out.leftover.is_empty());
    let stack: Vec<&[u8]> = out.leftover_stack.iter().map(|s| s.as_slice()).collect();
    assert_eq!(stack, vec![b"A".as_slice(), b"ROW".as_slice()]);
}

#[test]
fn invalid_text_entity_is_fatal() {
    let input = b"<ROW><X>a &bogus; b</X></ROW>";
    let err = run(input, ".", "ROW").unwrap_err();
    match err {
        FlattenError::TextDecodeFailure { position } => assert!(position > 0),
        other => panic!("expected a text decode failure, got {:?}", other),
    }
}

#[test]
fn structural_mismatch_is_fatal() {
    let events = vec![
        ParsedEvent::Start {
            name: b"A".to_vec(),
            attrs: vec![],
        },
        ParsedEvent::End {
            name: b"B".to_vec(),
            position: 7,
        },
        ParsedEvent::Eof,
    ];
    let err = flatten_events(&events, &config(".", "ROW")).unwrap_err();
    match err {
        FlattenError::StructuralMismatch { found, position } => {
            assert_eq!(found, b"B".to_vec());
            assert_eq!(position, 7);
        }
        other => panic!("expected a structural mismatch, got {:?}", other),
    }
}

#[test]
fn end_without_start_is_fatal() {
    let events = vec![
        ParsedEvent::End {
            name: b"A".to_vec(),
            position: 3,
        },
        ParsedEvent::Eof,
    ];
    let err = flatten_events(&events, &config(".", "ROW")).unwrap_err();
    assert!(matches!(err, FlattenError::StructuralMismatch { .. }));
}

#[test]
fn truncation_position_is_reported() {
    let events = vec![
        ParsedEvent::Start {
            name: b"ROW".to_vec(),
            attrs: vec![],
        },
        ParsedEvent::End {
            name: b"ROW".to_vec(),
            position: 10,
        },
        ParsedEvent::Malformed { position: 42 },
    ];
    let out = flatten_events(&events, &config(".", "ROW")).unwrap();
    assert_eq!(out.records.len(), 1);
    assert_eq!(out.truncated, Some(42));
}

#[test]
fn malformed_attribute_markup_truncates() {
    let input = b"<OK></OK><ROW a=1></ROW>";
    let out = run(input, ".", "ROW").unwrap();
    assert_eq!(out.records.len(), 0);
    assert!(out.truncated.is_some());
}

#[test]
fn custom_separator_is_used() {
    let input = b"<ROW><X>v</X></ROW>";
    let out = run(input, "/", "ROW").unwrap();
    assert_eq!(values(&out.records[0], "ROW/X"), Some(vec!["v".to_string()]));
}

#[test]
fn to_key_joins_segments() {
    let segs = vec![b"A".to_vec(), b"B".to_vec(), b"C".to_vec()];
    assert_eq!(to_key(&segs, "."), "A.B.C".to_string());
    assert_eq!(to_key(&segs[..1], "."), "A".to_string());
    let none: Vec<Vec<u8>> = vec![];
    assert_eq!(to_key(&none, "."), String::new());
}

#[test]
fn to_key_replaces_invalid_utf8() {
    let segs = vec![vec![0xff, 0xfe], b"B".to_vec()];
    let key = to_key(&segs, ".");
    assert_eq!(key, "\u{fffd}\u{fffd}.B".to_string());
}

#[test]
fn replace_amp_substitutes_literally() {
    assert_eq!(replace_amp(b"a&amp;b"), b"a&b".to_vec());
    assert_eq!(replace_amp(b"&amp;&amp;"), b"&&".to_vec());
    assert_eq!(replace_amp(b"&amp"), b"&amp".to_vec());
    assert_eq!(replace_amp(b"no entity"), b"no entity".to_vec());
    assert_eq!(replace_amp(b""), b"".to_vec());
}

#[test]
fn trim_strips_xml_whitespace_only() {
    assert_eq!(trim_xml_ws(b" \t\r\n"), b"".to_vec());
    assert_eq!(trim_xml_ws(b"  a b  "), b"a b".to_vec());
    assert_eq!(trim_xml_ws(b"ab"), b"ab".to_vec());
    assert_eq!(trim_xml_ws(b""), b"".to_vec());
}

#[test]
fn decode_attr_value_prefers_unescaping() {
    assert_eq!(decode_attr_value(b"a&lt;b"), "a<b".to_string());
    assert_eq!(decode_attr_value(b"plain"), "plain".to_string());
    // A bare ampersand defeats unescaping; the fallback keeps the data.
    assert_eq!(decode_attr_value(b"a & b&amp;c"), "a & b&c".to_string());
}

#[test]
fn record_accumulates_and_flushes() {
    let mut rec = Record::new();
    assert!(rec.is_empty());
    rec.push_value("k".to_string(), "v1".to_string());
    rec.push_value("k".to_string(), "v2".to_string());
    rec.push_value("j".to_string(), "w".to_string());
    assert_eq!(rec.len(), 2);
    assert_eq!(
        values(&rec, "k"),
        Some(vec!["v1".to_string(), "v2".to_string()])
    );
    assert_eq!(values(&rec, "j"), Some(vec!["w".to_string()]));
    assert_eq!(values(&rec, "missing"), None);
    let flushed = rec.flush();
    assert!(rec.is_empty());
    assert_eq!(flushed.len(), 2);
    assert_eq!(
        values(&flushed, "k"),
        Some(vec!["v1".to_string(), "v2".to_string()])
    );
}

#[test]
fn path_stack_pushes_and_pops_matching_names() {
    let mut st = PathStack::new();
    assert!(st.is_empty());
    st.push(b"A".to_vec());
    st.push(b"B".to_vec());
    assert_eq!(st.depth(), 2);
    assert!(st.pop(b"WRONG").is_err());
    assert_eq!(st.depth(), 2);
    let popped = st.pop(b"B").unwrap();
    assert_eq!(popped, b"B".to_vec());
    assert!(st.pop(b"B").is_err());
    assert!(st.pop(b"A").is_ok());
    assert!(st.is_empty());
    assert!(st.pop(b"A").is_err());
}

#[test]
fn reruns_produce_identical_output() {
    let input = br#"<ROOT><ROW a="1"><X>hi</X></ROW><ROW a="2"><X>bye</X></ROW></ROOT>"#;
    let out1 = run(input, ".", "ROW").unwrap();
    let out2 = run(input, ".", "ROW").unwrap();
    assert_eq!(out1.records.len(), out2.records.len());
    for (r1, r2) in out1.records.iter().zip(out2.records.iter()) {
        let e1: Vec<_> = r1.entries().clone();
        let e2: Vec<_> = r2.entries().clone();
        assert_eq!(e1, e2);
    }
    assert_eq!(out1.truncated, out2.truncated);
}

#[test]
fn comments_and_cdata_carry_no_values() {
    let input = b"<ROW><!-- note --><X>v</X><![CDATA[ignored]]></ROW>";
    let out = run(input, ".", "ROW").unwrap();
    assert_eq!(out.records.len(), 1);
    assert_eq!(out.records[0].len(), 1);
    assert_eq!(values(&out.records[0], "ROW.X"), Some(vec!["v".to_string()]));
}
