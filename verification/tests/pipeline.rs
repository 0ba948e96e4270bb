use logcompress::fast_index::tokenize_hashed;
use logcompress::json::{JsonEntry, JsonScalar};
use logcompress::parser::{parse_json_fields_only, tokenize, JsonFields};
use logcompress::pipeline::{
    collect_trace_ids, error_lines_to_add, index_lines, is_json_input, matching_boost_fields,
    plan_output, query_term_counts, string_value, trace_expansion, OutputSlot, SlotSource,
};
use logcompress::InputFormat;

#[test]
fn json_input_decision() {
    let json = vec!["  {\"a\":1}  ", "plain"];
    let plain = vec!["plain", "{\"a\":1}"];
    assert!(is_json_input(InputFormat::Auto, &json));
    assert!(!is_json_input(InputFormat::Auto, &plain));
    assert!(!is_json_input(InputFormat::Auto, &[]));
    assert!(is_json_input(InputFormat::JsonLines, &plain));
    assert!(!is_json_input(InputFormat::PlainText, &json));
}

#[test]
fn query_terms_counted() {
    let q = vec![7u64, 3, 7, 9, 3, 7];
    assert_eq!(query_term_counts(&q), vec![(3, 2), (7, 3), (9, 1)]);
    assert!(query_term_counts(&[]).is_empty());
}

#[test]
fn lines_indexed_by_position() {
    let hashes: Vec<Vec<u64>> = vec![
        tokenize_hashed(b"payment failed"),
        tokenize_hashed(b"health ok"),
        tokenize_hashed(b"payment retry"),
    ];
    let idx = index_lines(&hashes);
    assert_eq!(idx.total_docs(), 3);
    assert_eq!(idx.candidate_lines(&tokenize_hashed(b"payment")), vec![0, 2]);
    assert_eq!(idx.doc_freq(tokenize_hashed(b"ok")[0]), 1);
}

#[test]
fn boost_fields_matching_query() {
    let fields = JsonFields {
        level: None,
        field_values: vec![
            ("order_id".to_string(), "ord-100042".to_string()),
            ("trace_id".to_string(), "tr-1".to_string()),
            ("user_id".to_string(), "42".to_string()),
        ],
    };
    let query = tokenize("why did ORD-100042 fail for 42");
    assert_eq!(
        matching_boost_fields(&fields, &query),
        vec!["order_id".to_string(), "user_id".to_string()]
    );
}

#[test]
fn error_lines_added_once() {
    let lines = vec![
        r#"{"level":"ERROR"}"#,
        r#"{"level":"INFO"}"#,
        r#"{"level":"fatal"}"#,
        r#"{"level":"ERROR"}"#,
    ];
    assert_eq!(error_lines_to_add(&lines, &[3]), vec![0, 2]);
    assert_eq!(error_lines_to_add(&lines, &[]), vec![0, 2, 3]);
}

#[test]
fn trace_ids_from_objects() {
    let objects = vec![
        vec![
            JsonEntry { key: "trace_id".to_string(), value: JsonScalar::Text("tr-1".to_string()) },
            JsonEntry { key: "request_id".to_string(), value: JsonScalar::Other("5".to_string()) },
        ],
        vec![JsonEntry { key: "request_id".to_string(), value: JsonScalar::Text("req-9".to_string()) }],
    ];
    let fields = vec!["trace_id".to_string(), "request_id".to_string()];
    assert_eq!(collect_trace_ids(&objects, &fields), vec!["tr-1".to_string(), "req-9".to_string()]);
    assert_eq!(string_value(&objects[0], &['t', 'r', 'a', 'c', 'e', '_', 'i', 'd']), Some("tr-1".to_string()));
    assert_eq!(string_value(&objects[0], &['r', 'e', 'q', 'u', 'e', 's', 't', '_', 'i', 'd']), None);
}

#[test]
fn trace_expansion_follows_ids() {
    let lines = vec![
        r#"{"msg":"payment failed","trace_id":"tr-1"}"#,
        r#"{"msg":"start","trace_id":"tr-1"}"#,
        r#"{"msg":"other","trace_id":"tr-2"}"#,
        r#"{"msg":"req","request_id":"tr-1"}"#,
        r#"{"msg":"both","trace_id":"tr-3","request_id":"tr-1"}"#,
        r#"plain "trace_id": tr-1"#,
    ];
    let fields = vec!["trace_id".to_string(), "request_id".to_string()];
    let found = trace_expansion(&lines, &[0], &[0], &fields);
    // Line 4's first needle is "trace_id", whose value tr-3 is no seed id.
    assert_eq!(found, vec![(1, "tr-1".to_string()), (3, "tr-1".to_string())]);
    assert!(trace_expansion(&lines, &[], &[], &fields).is_empty());
    assert_eq!(trace_expansion(&lines, &[0], &[0, 1], &fields), vec![(3, "tr-1".to_string())]);
}

#[test]
fn output_plan_with_context() {
    let slots = plan_output(&[5, 3], 1, 10, 100);
    let expect = vec![
        OutputSlot { line_index: 2, source: SlotSource::Context(4) },
        OutputSlot { line_index: 3, source: SlotSource::Hit(1) },
        OutputSlot { line_index: 4, source: SlotSource::Context(6) },
        OutputSlot { line_index: 5, source: SlotSource::Hit(0) },
        OutputSlot { line_index: 6, source: SlotSource::Context(6) },
    ];
    assert_eq!(slots, expect);
    assert_eq!(plan_output(&[5, 3], 1, 10, 2), expect[..2].to_vec());
    assert!(plan_output(&[], 2, 10, 100).is_empty());
}

#[test]
fn output_plan_duplicate_hits_and_clamping() {
    let slots = plan_output(&[0, 0, 9], 2, 10, 100);
    let lines: Vec<usize> = slots.iter().map(|s| s.line_index).collect();
    assert_eq!(lines, vec![0, 1, 2, 7, 8, 9]);
    assert_eq!(slots[0].source, SlotSource::Hit(0));
    assert_eq!(slots[5].source, SlotSource::Hit(2));
    assert_eq!(slots[3].source, SlotSource::Context(10));
}

#[test]
fn parse_fields_then_match() {
    let f = parse_json_fields_only(
        r#"{"payment_id":"pay-7","order_id":"x"}"#,
        &["payment_id".to_string(), "order_id".to_string()],
    )
    .unwrap();
    assert_eq!(matching_boost_fields(&f, &tokenize("pay 7")), vec!["payment_id".to_string()]);
}
