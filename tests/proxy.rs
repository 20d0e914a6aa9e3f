use tavily_hikari::classify::Verdict;
use tavily_hikari::error::ProxyError;
use tavily_hikari::proxy::{
    accepts_event_stream, reply_headers, compose_path, default_limit, forward_headers, parse_endpoint, prepare_call, preview_key,
    settle_attempt, upstream_query, ProxyRequest, ProxyResponse, DEFAULT_UPSTREAM,
};
use tavily_hikari::store::KeyStatus;

fn request(query: Option<&str>) -> ProxyRequest {
    ProxyRequest {
        method: "POST".to_string(),
        path: "/mcp".to_string(),
        query: query.map(|q| q.to_string()),
        headers: vec![
            ("host".to_string(), b"localhost".to_vec()),
            ("Content-Length".to_string(), b"12".to_vec()),
            ("accept".to_string(), b"application/json".to_vec()),
        ],
        body: b"{\"x\":1}".to_vec(),
    }
}

#[test]
fn headers_drop_host_and_length_and_add_key() {
    let r = request(None);
    let h = forward_headers(&r.headers, "k-1");
    assert_eq!(
        h,
        vec![
            ("accept".to_string(), b"application/json".to_vec()),
            ("Tavily-Api-Key".to_string(), b"k-1".to_vec()),
        ]
    );
}

#[test]
fn query_pairs_keep_order_and_append_key() {
    let pairs = upstream_query(Some("a=1&b=x%20y"), "secret");
    assert_eq!(
        pairs,
        vec![
            ("a".to_string(), "1".to_string()),
            ("b".to_string(), "x y".to_string()),
            ("tavilyApiKey".to_string(), "secret".to_string()),
        ]
    );
    assert_eq!(upstream_query(None, "s"), vec![("tavilyApiKey".to_string(), "s".to_string())]);
}

#[test]
fn upstream_call_is_built() {
    let base = parse_endpoint(DEFAULT_UPSTREAM).unwrap();
    assert_eq!(base, DEFAULT_UPSTREAM);
    let call = prepare_call(&base, &request(Some("a=1")), "k").unwrap();
    assert_eq!(call.url, "https://mcp.tavily.com/mcp?a=1&tavilyApiKey=k");
    assert_eq!(call.method, "POST");
    assert_eq!(call.body, b"{\"x\":1}".to_vec());
    assert_eq!(call.headers.len(), 2);
}

#[test]
fn upstream_url_replaces_path_and_encodes_pairs() {
    let mut r = request(Some("q=a%20b&x=%26"));
    r.path = "/other/path".to_string();
    let call = prepare_call("http://example.com:8080/mcp", &r, "k&1").unwrap();
    assert_eq!(call.url, "http://example.com:8080/other/path?q=a+b&x=%26&tavilyApiKey=k%261");
    assert!(prepare_call("not a url", &r, "k").is_none());
}

#[test]
fn invalid_endpoint_is_rejected() {
    match parse_endpoint("not a url") {
        Err(ProxyError::InvalidEndpoint { endpoint, .. }) => assert_eq!(endpoint, "not a url"),
        other => panic!("unexpected {:?}", other),
    }
}

#[test]
fn settled_quota_response_retires_key() {
    let resp = ProxyResponse { status: 432, headers: vec![], body: b"{}".to_vec() };
    let s = settle_attempt("k", &request(Some("q=1")), Ok(resp), 77);
    assert!(s.retire_key);
    assert_eq!(s.log.status_code, Some(432));
    assert_eq!(s.log.outcome, Verdict::Error);
    assert_eq!(s.log.response_body, b"{}".to_vec());
    assert_eq!(s.log.query, Some("q=1".to_string()));
    assert_eq!(s.log.created_at, 77);
    assert!(matches!(s.reply, Ok(ProxyResponse { status: 432, .. })));
}

#[test]
fn settled_success_is_logged() {
    let body = br#"{"result":{"structuredContent":{"status":200}}}"#.to_vec();
    let resp = ProxyResponse { status: 200, headers: vec![], body: body.clone() };
    let s = settle_attempt("k", &request(None), Ok(resp), 1);
    assert!(!s.retire_key);
    assert_eq!(s.log.outcome, Verdict::Success);
    assert_eq!(s.log.outcome.as_str(), "success");
    assert_eq!(s.log.error_message, None);
}

#[test]
fn transport_failure_is_logged_and_not_retired() {
    let s = settle_attempt("k", &request(None), Err("connection refused".to_string()), 5);
    assert!(!s.retire_key);
    assert_eq!(s.log.status_code, None);
    assert_eq!(s.log.error_message, Some("connection refused".to_string()));
    assert_eq!(s.log.outcome, Verdict::Error);
    assert!(s.log.response_body.is_empty());
    assert!(matches!(s.reply, Err(ProxyError::Http(ref m)) if m == "connection refused"));
}

#[test]
fn failed_log_write_does_not_change_reply() {
    let resp = ProxyResponse { status: 200, headers: vec![], body: b"ok".to_vec() };
    let s = settle_attempt("k", &request(None), Ok(resp), 1);
    let reply = s.respond(Err(ProxyError::Database("disk I/O error".to_string())));
    match reply {
        Ok(r) => {
            assert_eq!(r.status, 200);
            assert_eq!(r.body, b"ok".to_vec());
        }
        Err(e) => panic!("unexpected {:?}", e),
    }
}

#[test]
fn key_preview() {
    assert_eq!(preview_key("tvly-abcdef123"), "tvly-a…");
    assert_eq!(preview_key("abc"), "abc…");
    assert_eq!(preview_key(""), "…");
}

#[test]
fn path_with_query() {
    assert_eq!(compose_path("/mcp", Some("a=1")), "/mcp?a=1");
    assert_eq!(compose_path("/mcp", Some("")), "/mcp");
    assert_eq!(compose_path("/mcp", None), "/mcp");
}

#[test]
fn names_and_defaults() {
    assert_eq!(default_limit(), 1000);
    assert_eq!(Verdict::QuotaExhausted.as_str(), "quota_exhausted");
    assert_eq!(Verdict::Unknown.as_str(), "unknown");
    assert_eq!(Verdict::Error.as_str(), "error");
    assert_eq!(KeyStatus::Active.as_str(), "active");
    assert_eq!(KeyStatus::Exhausted.as_str(), "exhausted");
}

#[test]
fn reply_drops_hop_by_hop_headers() {
    let hs = vec![
        ("Transfer-Encoding".to_string(), b"chunked".to_vec()),
        ("content-type".to_string(), b"text/event-stream".to_vec()),
        ("connection".to_string(), b"keep-alive".to_vec()),
        ("content-length".to_string(), b"3".to_vec()),
        ("x-request-id".to_string(), b"7".to_vec()),
    ];
    assert_eq!(
        reply_headers(&hs),
        vec![
            ("content-type".to_string(), b"text/event-stream".to_vec()),
            ("x-request-id".to_string(), b"7".to_vec()),
        ]
    );
}

#[test]
fn accept_header_event_stream() {
    assert!(accepts_event_stream("text/event-stream"));
    assert!(accepts_event_stream("application/json, Text/Event-Stream "));
    assert!(!accepts_event_stream("application/json"));
    assert!(!accepts_event_stream("text/event-streams"));
    assert!(!accepts_event_stream(""));
}
