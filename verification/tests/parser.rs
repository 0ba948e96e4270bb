use logcompress::config::InputFormat;
use logcompress::fast_index::{hash_token, tokenize_hashed};
use logcompress::json::{JsonEntry, JsonScalar};
use logcompress::parser::{
    detect_format, fast_is_error_line, is_error_level, is_warn_level, json_fields_from_members,
    parse_json_fields_only, parse_line, tokenize,
};

#[test]
fn tokenize_basic() {
    let tokens = tokenize("payment_id=42 failed with timeout");
    assert!(tokens.contains(&"payment_id".to_string()));
    assert!(tokens.contains(&"42".to_string()));
    assert!(tokens.contains(&"failed".to_string()));
    assert!(tokens.contains(&"timeout".to_string()));
}

#[test]
fn tokenize_filters_short() {
    let tokens = tokenize("a b cc dd");
    assert!(!tokens.contains(&"a".to_string()));
    assert!(!tokens.contains(&"b".to_string()));
    assert!(tokens.contains(&"cc".to_string()));
    assert!(tokens.contains(&"dd".to_string()));
}

#[test]
fn detect_json() {
    assert_eq!(
        detect_format(r#"{"level":"ERROR","message":"fail"}"#),
        InputFormat::JsonLines
    );
}

#[test]
fn detect_plain() {
    assert_eq!(
        detect_format("2026-09-06 10:00:00 ERROR payment failed"),
        InputFormat::PlainText
    );
}

#[test]
fn parse_json_level() {
    let boost_fields = vec!["trace_id".to_string()];
    let parsed = parse_line(
        r#"{"level":"ERROR","trace_id":"abc123","message":"payment timeout"}"#,
        true,
        &boost_fields,
    );
    let fields = parsed.json_fields.unwrap();
    assert_eq!(fields.level.as_deref(), Some("ERROR"));
    assert!(fields
        .field_values
        .iter()
        .any(|(k, v)| k == "trace_id" && v == "abc123"));
}

#[test]
fn parse_plain_no_json() {
    let parsed = parse_line("just plain text here", false, &[]);
    assert!(parsed.json_fields.is_none());
    assert!(!parsed.tokens.is_empty());
}

#[test]
fn tokenize_lowercases_in_order() {
    assert_eq!(
        tokenize("ERROR: Payment_ID=42, x; OK"),
        vec!["error", "payment_id", "42", "ok"]
    );
    assert!(tokenize("").is_empty());
}

#[test]
fn detect_trims_white_space() {
    assert_eq!(detect_format("  \t{\"a\":1}\u{3000} "), InputFormat::JsonLines);
    assert_eq!(detect_format("{"), InputFormat::PlainText);
    assert_eq!(detect_format("   "), InputFormat::PlainText);
    assert_eq!(detect_format("{}"), InputFormat::JsonLines);
}

#[test]
fn levels() {
    assert!(is_error_level("ERROR"));
    assert!(is_error_level("EMERGENCY"));
    assert!(!is_error_level("error"));
    assert!(!is_error_level("WARN"));
    assert!(is_warn_level("WARN"));
    assert!(is_warn_level("WARNING"));
    assert!(!is_warn_level("WARNINGS"));
}

#[test]
fn error_line_markers() {
    assert!(fast_is_error_line(r#"{"level":"ERROR"}"#));
    assert!(fast_is_error_line(r#"x "critical" y"#));
    assert!(!fast_is_error_line("ERROR without quotes"));
    assert!(!fast_is_error_line(r#"{"level":"Error"}"#));
}

#[test]
fn json_fields_level_fallbacks() {
    let boost = vec!["order_id".to_string(), "missing".to_string(), "span".to_string()];
    let f = parse_json_fields_only(
        r#"{"severity":"warn","order_id":12345,"span":"sp-1","level":7}"#,
        &boost,
    )
    .unwrap();
    // "level" is present but is not a string: no fallback to "severity".
    assert_eq!(f.level, None);
    assert_eq!(
        f.field_values,
        vec![
            ("order_id".to_string(), "12345".to_string()),
            ("span".to_string(), "sp-1".to_string())
        ]
    );
    let g = parse_json_fields_only(r#"{"log_level":"fatal"}"#, &[]).unwrap();
    assert_eq!(g.level.as_deref(), Some("FATAL"));
    assert!(parse_json_fields_only("[1,2]", &[]).is_none());
    assert!(parse_json_fields_only("not json", &[]).is_none());
}

#[test]
fn json_fields_from_given_members() {
    let members = vec![
        JsonEntry { key: "loglevel".to_string(), value: JsonScalar::Text("info".to_string()) },
        JsonEntry { key: "trace_id".to_string(), value: JsonScalar::Other("[1]".to_string()) },
    ];
    let f = json_fields_from_members(&members, &["trace_id".to_string()]);
    assert_eq!(f.level.as_deref(), Some("INFO"));
    assert_eq!(f.field_values, vec![("trace_id".to_string(), "[1]".to_string())]);
}

#[test]
fn tokenizers_agree() {
    let text = "User_ID=77 LOGIN Failed: caf\u{e9} x 42";
    let strings = tokenize(text);
    let hashes = tokenize_hashed(text.as_bytes());
    let from_strings: Vec<u64> = strings.iter().map(|s| hash_token(s.as_bytes())).collect();
    assert_eq!(hashes, from_strings);
    assert_eq!(strings, vec!["user_id", "77", "login", "failed", "caf", "42"]);
}

#[test]
fn tokenize_idempotent_and_case_blind() {
    for text in [
        "payment_id=42 failed with timeout",
        "User_ID=77 LOGIN Failed: caf\u{e9} x 42",
        "a b cc dd",
        "",
        "ÄÖÜ straße TIMEOUT_ERR {\"level\":\"ERROR\"}",
    ] {
        let tokens = tokenize(text);
        assert_eq!(tokenize(&tokens.join(" ")), tokens);
        assert_eq!(tokenize(&text.to_ascii_lowercase()), tokens);
        assert_eq!(tokenize(&text.to_ascii_uppercase()), tokens);
    }
}
