use tavily_hikari::classify::{
    analyze_attempt, classify_status_code, parse_embedded_status, AttemptAnalysis,
    MessageOutcome, Verdict,
};
use tavily_hikari::json::Json;
use tavily_hikari::sse::extract_sse_json_messages;

fn analyze(status: u16, body: &str) -> AttemptAnalysis {
    analyze_attempt(status, body.as_bytes())
}

fn verdict(outcome: Verdict, retire_key: bool) -> AttemptAnalysis {
    AttemptAnalysis { outcome, retire_key }
}

fn chars(s: &str) -> Vec<char> {
    s.chars().collect()
}

#[test]
fn structured_status_200_is_success() {
    let r = analyze(200, r#"{"result":{"structuredContent":{"status":200}}}"#);
    assert_eq!(r, verdict(Verdict::Success, false));
}

#[test]
fn structured_status_432_is_quota() {
    let r = analyze(200, r#"{"result":{"structuredContent":{"status":432}}}"#);
    assert_eq!(r, verdict(Verdict::QuotaExhausted, true));
}

#[test]
fn raw_status_432_retires_with_empty_body() {
    let r = analyze(432, "");
    assert!(r.retire_key);
    assert_eq!(r, verdict(Verdict::Error, true));
}

#[test]
fn raw_status_432_retires_with_success_body() {
    let r = analyze(432, r#"{"result":{"structuredContent":{"status":200}}}"#);
    assert!(r.retire_key);
}

#[test]
fn sse_success_then_error_is_error() {
    let body = "data: {\"result\":{\"structuredContent\":{\"status\":200}}}\n\ndata: {\"error\":{\"code\":-32000}}\n\n";
    assert_eq!(analyze(200, body), verdict(Verdict::Error, false));
}

#[test]
fn sse_success_then_quota_is_quota() {
    let body = "data: {\"result\":{}}\n\ndata: {\"result\":{\"structuredContent\":{\"status\":432}}}\n";
    assert_eq!(analyze(200, body), verdict(Verdict::QuotaExhausted, true));
}

#[test]
fn sse_error_then_quota_is_error() {
    let body = "data: {\"error\":1}\n\ndata: {\"result\":{\"structuredContent\":{\"status\":432}}}\n";
    assert_eq!(analyze(200, body), verdict(Verdict::Error, false));
}

#[test]
fn malformed_utf8_is_unknown() {
    let r = analyze_attempt(200, &[0x7b, 0xff, 0xfe, 0x7d]);
    assert_eq!(r, verdict(Verdict::Unknown, false));
}

#[test]
fn non_success_status_is_error() {
    assert_eq!(analyze(500, r#"{"result":{}}"#), verdict(Verdict::Error, false));
    assert_eq!(analyze(404, ""), verdict(Verdict::Error, false));
    assert_eq!(analyze(199, ""), verdict(Verdict::Error, false));
}

#[test]
fn empty_body_is_unknown() {
    assert_eq!(analyze(200, ""), verdict(Verdict::Unknown, false));
}

#[test]
fn message_without_result_or_error_is_unknown() {
    assert_eq!(analyze(200, r#"{"jsonrpc":"2.0","id":1}"#), verdict(Verdict::Unknown, false));
}

#[test]
fn detail_status_is_read() {
    let r = analyze(200, r#"{"result":{"structuredContent":{"detail":{"status":432}}}}"#);
    assert_eq!(r, verdict(Verdict::QuotaExhausted, true));
    let r = analyze(200, r#"{"result":{"structuredContent":{"detail":{"status":401}}}}"#);
    assert_eq!(r, verdict(Verdict::Error, false));
}

#[test]
fn structured_is_error_flag() {
    let r = analyze(200, r#"{"result":{"structuredContent":{"isError":true}}}"#);
    assert_eq!(r, verdict(Verdict::Error, false));
    let r = analyze(200, r#"{"result":{"structuredContent":{"isError":false}}}"#);
    assert_eq!(r, verdict(Verdict::Success, false));
}

#[test]
fn structured_content_text_embedded_status() {
    let body = r#"{"result":{"structuredContent":{"content":[{"text":"plain"},{"text":"  {\"status\":432} "}]}}}"#;
    assert_eq!(analyze(200, body), verdict(Verdict::QuotaExhausted, true));
}

#[test]
fn result_content_error_type_any_case() {
    let body = r#"{"result":{"content":[{"type":"ERROR","text":"boom"}]}}"#;
    assert_eq!(analyze(200, body), verdict(Verdict::Error, false));
}

#[test]
fn result_content_embedded_status() {
    let body = r#"{"result":{"content":[{"type":"text","text":"{\"detail\":{\"status\":432}}"}]}}"#;
    assert_eq!(analyze(200, body), verdict(Verdict::QuotaExhausted, true));
    let body = r#"{"result":{"content":[{"type":"text","text":"{\"status\":200}"}]}}"#;
    assert_eq!(analyze(200, body), verdict(Verdict::Success, false));
}

#[test]
fn result_error_and_is_error() {
    assert_eq!(analyze(200, r#"{"result":{"error":"x"}}"#), verdict(Verdict::Error, false));
    assert_eq!(analyze(200, r#"{"result":{"isError":true}}"#), verdict(Verdict::Error, false));
    assert_eq!(analyze(200, r#"{"result":{"content":[{"type":"text","text":"hello"}]}}"#), verdict(Verdict::Success, false));
}

#[test]
fn top_level_error_is_error() {
    assert_eq!(analyze(200, r#"{"error":{"code":1}}"#), verdict(Verdict::Error, false));
}

#[test]
fn float_status_is_not_a_code() {
    let r = analyze(200, r#"{"result":{"structuredContent":{"status":432.5}}}"#);
    assert_eq!(r, verdict(Verdict::Success, false));
}

#[test]
fn non_ascii_body_decodes() {
    let r = analyze(200, "{\"result\":{\"structuredContent\":{\"status\":432,\"note\":\"配额\"}}}");
    assert_eq!(r, verdict(Verdict::QuotaExhausted, true));
}

#[test]
fn status_codes_classify() {
    assert_eq!(classify_status_code(432), MessageOutcome::QuotaExhausted);
    assert_eq!(classify_status_code(400), MessageOutcome::Error);
    assert_eq!(classify_status_code(500), MessageOutcome::Error);
    assert_eq!(classify_status_code(399), MessageOutcome::Success);
    assert_eq!(classify_status_code(200), MessageOutcome::Success);
}

#[test]
fn embedded_status_parsing() {
    assert_eq!(parse_embedded_status("  {\"status\": 432}\n"), Some(432));
    assert_eq!(parse_embedded_status("{\"detail\":{\"status\":500}}"), Some(500));
    assert_eq!(parse_embedded_status("status 432"), None);
    assert_eq!(parse_embedded_status("{not json"), None);
    assert_eq!(parse_embedded_status("{\"other\":1}"), None);
}

#[test]
fn sse_blocks_join_lines_and_drop_malformed() {
    let text = chars("event: message\ndata: {\"a\":\ndata: 1}\n\ndata: {broken\n\ndata:   {\"b\":2}  \r\n");
    let messages = extract_sse_json_messages(&text);
    assert_eq!(messages.len(), 2);
    match &messages[0] {
        Json::Object(fields) => {
            assert_eq!(fields.len(), 1);
            assert_eq!(fields[0].0, "a");
            assert!(matches!(fields[0].1, Json::Number(Some(1))));
        }
        other => panic!("unexpected {:?}", other),
    }
    match &messages[1] {
        Json::Object(fields) => assert_eq!(fields[0].0, "b"),
        other => panic!("unexpected {:?}", other),
    }
}

#[test]
fn plain_json_without_sse_frames() {
    assert!(extract_sse_json_messages(&chars("{\"a\":1}")).is_empty());
    let r = analyze(200, "  {\"result\":{}}  ");
    assert_eq!(r, verdict(Verdict::Success, false));
}

#[test]
fn json_values_are_read() {
    let messages = extract_sse_json_messages(&chars("data: [null,true,-3,\"x\",1.5]\n"));
    assert_eq!(messages.len(), 1);
    match &messages[0] {
        Json::Array(items) => {
            assert_eq!(items.len(), 5);
            assert!(matches!(items[0], Json::Null));
            assert!(matches!(items[1], Json::Bool(true)));
            assert!(matches!(items[2], Json::Number(Some(-3))));
            assert!(matches!(&items[3], Json::Str(s) if s == "x"));
            assert!(matches!(items[4], Json::Number(None)));
        }
        other => panic!("unexpected {:?}", other),
    }
}
