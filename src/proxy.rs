use vstd::prelude::*;
use vstd::string::StringSliceAdditionalSpecFns;
use vstd::utf8::encode_utf8;
use crate::classify::{analyze_attempt, attempt_analysis, Verdict};
use crate::error::ProxyError;
use crate::store::KeyStatus;
use crate::sse::{pieces, split_on, views};
use crate::store::texts;
use crate::text::{chars_of, string_of, trim, trim_chars};

verus! {

/// The upstream endpoint used when none is configured.
pub const DEFAULT_UPSTREAM: &'static str = "https://mcp.tavily.com/mcp";

/// The query parameter that carries the leased key upstream.
pub const API_KEY_PARAM: &'static str = "tavilyApiKey";

/// The request header that carries the leased key upstream.
pub const API_KEY_HEADER: &'static str = "Tavily-Api-Key";

/// One inbound request to forward. Header values are raw bytes.
#[derive(Debug)]
pub struct ProxyRequest {
    pub method: String,
    pub path: String,
    pub query: Option<String>,
    pub headers: Vec<(String, Vec<u8>)>,
    pub body: Vec<u8>,
}

/// The upstream's answer, passed back verbatim.
#[derive(Debug)]
pub struct ProxyResponse {
    pub status: u16,
    pub headers: Vec<(String, Vec<u8>)>,
    pub body: Vec<u8>,
}

/// The call to make upstream for one request.
#[derive(Debug)]
pub struct UpstreamCall {
    pub method: String,
    pub url: String,
    pub headers: Vec<(String, Vec<u8>)>,
    pub body: Vec<u8>,
}

/// One line of the request log.
#[derive(Debug)]
pub struct RequestLogEntry {
    pub key: String,
    pub method: String,
    pub path: String,
    pub query: Option<String>,
    pub status_code: Option<u16>,
    pub error_message: Option<String>,
    pub outcome: Verdict,
    pub response_body: Vec<u8>,
    pub created_at: i64,
}

/// What follows from one forwarding attempt: the log line to append, whether the
/// key must be marked exhausted, and the answer owed to the caller.
#[derive(Debug)]
pub struct Settlement {
    pub log: RequestLogEntry,
    pub retire_key: bool,
    pub reply: Result<ProxyResponse, ProxyError>,
}

pub open spec fn header_views(v: Seq<(String, Vec<u8>)>) -> Seq<(Seq<char>, Seq<u8>)> {
    v.map_values(|h: (String, Vec<u8>)| (h.0@, h.1@))
}

pub open spec fn pair_views(v: Seq<(String, String)>) -> Seq<(Seq<char>, Seq<char>)> {
    v.map_values(|p: (String, String)| (p.0@, p.1@))
}

pub open spec fn opt_view(o: Option<String>) -> Option<Seq<char>> {
    match o {
        Some(s) => Some(s@),
        None => None,
    }
}

/// The code of a character, an ASCII capital read as its small letter.
pub open spec fn lower_char(c: char) -> u32 {
    if 65 <= (c as u32) && (c as u32) <= 90 {
        ((c as u32) + 32) as u32
    } else {
        c as u32
    }
}

/// Equal but for the case of ASCII letters.
pub open spec fn eq_ignore_case(a: Seq<char>, b: Seq<char>) -> bool {
    a.len() == b.len() && forall|i: int| 0 <= i < a.len() ==> lower_char(a[i]) == lower_char(b[i])
}

/// Whether a header name is one of `names`, but for case.
pub open spec fn named_among(name: Seq<char>, names: Seq<Seq<char>>) -> bool {
    exists|i: int| 0 <= i < names.len() && eq_ignore_case(name, names[i])
}

/// The headers whose names are not among `names`, in order.
pub open spec fn kept_headers(hs: Seq<(Seq<char>, Seq<u8>)>, names: Seq<Seq<char>>) -> Seq<
    (Seq<char>, Seq<u8>),
>
    decreases hs.len(),
{
    if hs.len() == 0 {
        hs
    } else {
        let init = kept_headers(hs.drop_last(), names);
        if named_among(hs.last().0, names) {
            init
        } else {
            init.push(hs.last())
        }
    }
}

/// The headers that the transport computes anew, not forwarded upstream.
pub open spec fn recomputed_headers() -> Seq<Seq<char>> {
    seq!["host"@, "content-length"@]
}

/// The hop-by-hop headers and the length, not passed back to the caller.
pub open spec fn hop_headers() -> Seq<Seq<char>> {
    seq!["transfer-encoding"@, "connection"@, "content-length"@]
}

/// Whether an `Accept` header value lists `text/event-stream` among its
/// comma-separated entries.
pub open spec fn wants_event_stream(accept: Seq<char>) -> bool {
    exists|i: int|
        0 <= i < pieces(accept, ',').len() && eq_ignore_case(
            trim(#[trigger] pieces(accept, ',')[i]),
            "text/event-stream"@,
        )
}

/// The name and value pairs that a URL query encodes, in order.
pub uninterp spec fn query_pairs_of(q: Seq<char>) -> Seq<(Seq<char>, Seq<char>)>;

/// Whether a text is a valid absolute URL.
pub uninterp spec fn is_url(s: Seq<char>) -> bool;

/// The serialized address made from the URL `endpoint`: its path replaced by `path`,
/// then the `pairs` form-encoded and appended to its query, in order.
pub uninterp spec fn url_with(
    endpoint: Seq<char>,
    path: Seq<char>,
    pairs: Seq<(Seq<char>, Seq<char>)>,
) -> Seq<char>;

pub open spec fn verdict_text(v: Verdict) -> Seq<char> {
    match v {
        Verdict::Success => "success"@,
        Verdict::Error => "error"@,
        Verdict::QuotaExhausted => "quota_exhausted"@,
        Verdict::Unknown => "unknown"@,
    }
}

pub open spec fn status_text(s: KeyStatus) -> Seq<char> {
    match s {
        KeyStatus::Active => "active"@,
        KeyStatus::Exhausted => "exhausted"@,
    }
}

impl Verdict {
    /// The name under which the log stores the verdict.
    pub fn as_str(&self) -> (r: &'static str)
        ensures
            r@ == verdict_text(*self),
    {
        match self {
            Verdict::Success => "success",
            Verdict::Error => "error",
            Verdict::QuotaExhausted => "quota_exhausted",
            Verdict::Unknown => "unknown",
        }
    }
}

impl KeyStatus {
    /// The name under which the store keeps the status.
    pub fn as_str(&self) -> (r: &'static str)
        ensures
            r@ == status_text(*self),
    {
        match self {
            KeyStatus::Active => "active",
            KeyStatus::Exhausted => "exhausted",
        }
    }
}

/// Relies on `url::Url::parse`: whether the text parses depends on the text alone.
#[verifier::external_body]
fn parse_url(s: &str) -> (r: Result<(), url::ParseError>)
    ensures
        r is Ok == is_url(s@),
{
    url::Url::parse(s).map(|_| ())
}

/// Relies on `url::form_urlencoded::parse`: the pairs that the query encodes, decoded.
#[verifier::external_body]
fn decode_query(q: &str) -> (r: Vec<(String, String)>)
    ensures
        pair_views(r@) == query_pairs_of(q@),
{
    url::form_urlencoded::parse(q.as_bytes()).map(|(k, v)| (k.into_owned(), v.into_owned())).collect()
}

/// Relies on `url::Url::parse`, `Url::set_path`, `extend_pairs` of
/// `Url::query_pairs_mut` and `Url::as_str`: the endpoint parsed, its path replaced,
/// the pairs form-encoded and appended to its query in order, then serialized.
#[verifier::external_body]
fn compose_url(endpoint: &str, path: &str, pairs: &Vec<(String, String)>) -> (r: Option<String>)
    ensures
        r is Some == is_url(endpoint@),
        r is Some ==> r->0@ == url_with(endpoint@, path@, pair_views(pairs@)),
{
    match url::Url::parse(endpoint) {
        Ok(mut url) => {
            url.set_path(path);
            url.query_pairs_mut().extend_pairs(pairs.iter().map(|(k, v)| (k.as_str(), v.as_str())));
            Some(url.as_str().to_owned())
        },
        Err(_) => None,
    }
}

/// Checks the upstream base address: the address itself where it is a valid URL.
pub fn parse_endpoint(upstream: &str) -> (r: Result<String, ProxyError>)
    ensures
        r is Ok == is_url(upstream@),
        match r {
            Ok(t) => t@ == upstream@,
            Err(e) => e is InvalidEndpoint && e->InvalidEndpoint_endpoint@ == upstream@,
        },
{
    match parse_url(upstream) {
        Ok(()) => Ok(upstream.to_owned()),
        Err(source) => Err(ProxyError::InvalidEndpoint { endpoint: upstream.to_owned(), source }),
    }
}

/// The query pairs sent upstream: those of the request, then the leased key.
pub fn upstream_query(query: Option<&str>, key: &str) -> (r: Vec<(String, String)>)
    ensures
        pair_views(r@) == (match query {
            Some(q) => query_pairs_of(q@),
            None => Seq::<(Seq<char>, Seq<char>)>::empty(),
        }).push((API_KEY_PARAM@, key@)),
{
    let mut pairs: Vec<(String, String)> = match query {
        Some(q) => decode_query(q),
        None => Vec::new(),
    };
    let ghost before = pair_views(pairs@);
    pairs.push((API_KEY_PARAM.to_owned(), key.to_owned()));
    assert(pair_views(pairs@) =~= before.push((API_KEY_PARAM@, key@)));
    pairs
}

fn lower_char_exec(c: char) -> (r: u32)
    ensures
        r == lower_char(c),
{
    let u = c as u32;
    if 65 <= u && u <= 90 {
        u + 32
    } else {
        u
    }
}

/// Whether two texts are equal but for the case of ASCII letters.
pub fn eq_ignore_ascii_case(a: &str, b: &str) -> (r: bool)
    ensures
        r == eq_ignore_case(a@, b@),
{
    let x = chars_of(a);
    let y = chars_of(b);
    eq_ignore_case_chars(x.as_slice(), y.as_slice())
}

fn eq_ignore_case_chars(x: &[char], y: &[char]) -> (r: bool)
    ensures
        r == eq_ignore_case(x@, y@),
{
    if x.len() != y.len() {
        return false;
    }
    let mut i: usize = 0;
    while i < x.len()
        invariant
            x@.len() == y@.len(),
            i <= x@.len(),
            forall|j: int| 0 <= j < i ==> lower_char(x@[j]) == lower_char(y@[j]),
        decreases x@.len() - i,
    {
        if lower_char_exec(x[i]) != lower_char_exec(y[i]) {
            return false;
        }
        i += 1;
    }
    true
}

fn copy_bytes(v: &[u8]) -> (r: Vec<u8>)
    ensures
        r@ == v@,
{
    let mut r: Vec<u8> = Vec::new();
    let mut i: usize = 0;
    while i < v.len()
        invariant
            i <= v@.len(),
            r@ =~= v@.subrange(0, i as int),
        decreases v@.len() - i,
    {
        r.push(v[i]);
        i += 1;
    }
    assert(v@.subrange(0, v@.len() as int) =~= v@);
    r
}

/// Whether `name` is one of `names`, but for case.
fn is_named_among(name: &str, names: &Vec<String>) -> (r: bool)
    ensures
        r == named_among(name@, texts(names@)),
{
    let mut i: usize = 0;
    while i < names.len()
        invariant
            i <= names@.len(),
            forall|j: int| 0 <= j < i ==> !eq_ignore_case(name@, names@[j]@),
        decreases names@.len() - i,
    {
        if eq_ignore_ascii_case(name, names[i].as_str()) {
            assert(eq_ignore_case(name@, texts(names@)[i as int]));
            return true;
        }
        i += 1;
    }
    assert forall|j: int| 0 <= j < texts(names@).len() implies !eq_ignore_case(
        name@,
        texts(names@)[j],
    ) by {
        assert(texts(names@)[j] == names@[j]@);
    }
    false
}

/// The headers whose names are not among `names` (but for case), in order.
pub fn filter_headers(headers: &Vec<(String, Vec<u8>)>, names: &Vec<String>) -> (r: Vec<
    (String, Vec<u8>),
>)
    ensures
        header_views(r@) == kept_headers(header_views(headers@), texts(names@)),
{
    let mut out: Vec<(String, Vec<u8>)> = Vec::new();
    let mut i: usize = 0;
    assert(header_views(headers@).subrange(0, 0) =~= Seq::<(Seq<char>, Seq<u8>)>::empty());
    assert(header_views(out@) =~= Seq::<(Seq<char>, Seq<u8>)>::empty());
    while i < headers.len()
        invariant
            i <= headers@.len(),
            header_views(out@) == kept_headers(
                header_views(headers@).subrange(0, i as int),
                texts(names@),
            ),
        decreases headers@.len() - i,
    {
        assert(header_views(headers@).subrange(0, i + 1).drop_last() =~= header_views(
            headers@,
        ).subrange(0, i as int));
        let name = &headers[i].0;
        if !is_named_among(name.as_str(), names) {
            let ghost before = header_views(out@);
            out.push((name.clone(), copy_bytes(headers[i].1.as_slice())));
            assert(header_views(out@) =~= before.push(header_views(headers@)[i as int]));
        }
        i += 1;
    }
    assert(header_views(headers@).subrange(0, headers@.len() as int) =~= header_views(headers@));
    out
}

/// The headers to send upstream: the request's, but for those the transport computes
/// anew, then the leased key.
pub fn forward_headers(headers: &Vec<(String, Vec<u8>)>, key: &str) -> (r: Vec<(String, Vec<u8>)>)
    ensures
        header_views(r@) == kept_headers(header_views(headers@), recomputed_headers()).push(
            (API_KEY_HEADER@, encode_utf8(key@)),
        ),
{
    let names = vec!["host".to_owned(), "content-length".to_owned()];
    assert(texts(names@) =~= recomputed_headers());
    let mut out = filter_headers(headers, &names);
    let ghost before = header_views(out@);
    let value = copy_bytes(key.as_bytes());
    out.push((API_KEY_HEADER.to_owned(), value));
    assert(header_views(out@) =~= before.push((API_KEY_HEADER@, encode_utf8(key@))));
    out
}

/// The upstream's headers as passed back to the caller: without the hop-by-hop ones
/// and the length, which the front door sets anew.
pub fn reply_headers(headers: &Vec<(String, Vec<u8>)>) -> (r: Vec<(String, Vec<u8>)>)
    ensures
        header_views(r@) == kept_headers(header_views(headers@), hop_headers()),
{
    let names = vec![
        "transfer-encoding".to_owned(),
        "connection".to_owned(),
        "content-length".to_owned(),
    ];
    assert(texts(names@) =~= hop_headers());
    filter_headers(headers, &names)
}

/// Whether an `Accept` header asks for an event stream (see `wants_event_stream`).
pub fn accepts_event_stream(accept: &str) -> (r: bool)
    ensures
        r == wants_event_stream(accept@),
{
    let text = chars_of(accept);
    let wanted = chars_of("text/event-stream");
    let parts = split_on(text.as_slice(), ',');
    let mut i: usize = 0;
    while i < parts.len()
        invariant
            i <= parts@.len(),
            text@ == accept@,
            wanted@ == "text/event-stream"@,
            views(parts@) == pieces(accept@, ','),
            forall|j: int| 0 <= j < i ==> !eq_ignore_case(trim(pieces(accept@, ',')[j]), "text/event-stream"@),
        decreases parts@.len() - i,
    {
        let t = trim_chars(parts[i].as_slice());
        assert(parts@[i as int]@ == pieces(accept@, ',')[i as int]);
        if eq_ignore_case_chars(t.as_slice(), wanted.as_slice()) {
            return true;
        }
        i += 1;
    }
    false
}

/// The pairs that the request's query encodes.
pub open spec fn request_pairs(query: Option<String>) -> Seq<(Seq<char>, Seq<char>)> {
    match query {
        Some(q) => query_pairs_of(q@),
        None => Seq::<(Seq<char>, Seq<char>)>::empty(),
    }
}

/// The upstream call for `request` with the leased `key`: same method and body, the
/// request's path on the `upstream` endpoint with its query pairs then the key, its
/// headers (see `forward_headers`). `None` where `upstream` is not a valid URL.
pub fn prepare_call(upstream: &str, request: &ProxyRequest, key: &str) -> (r: Option<UpstreamCall>)
    ensures
        r is Some == is_url(upstream@),
        r is Some ==> {
            let c = r->0;
            &&& c.method@ == request.method@
            &&& c.body@ == request.body@
            &&& c.url@ == url_with(
                upstream@,
                request.path@,
                request_pairs(request.query).push((API_KEY_PARAM@, key@)),
            )
            &&& header_views(c.headers@) == kept_headers(
                header_views(request.headers@),
                recomputed_headers(),
            ).push((API_KEY_HEADER@, encode_utf8(key@)))
        },
{
    let query = match &request.query {
        Some(q) => Some(q.as_str()),
        None => None,
    };
    let pairs = upstream_query(query, key);
    let url = match compose_url(upstream, request.path.as_str(), &pairs) {
        Some(u) => u,
        None => return None,
    };
    Some(
        UpstreamCall {
            method: request.method.clone(),
            url,
            headers: forward_headers(&request.headers, key),
            body: copy_bytes(request.body.as_slice()),
        },
    )
}

fn copy_opt(o: &Option<String>) -> (r: Option<String>)
    ensures
        opt_view(r) == opt_view(*o),
{
    match o {
        Some(s) => Some(s.clone()),
        None => None,
    }
}

/// Settles one attempt with the leased `key`, at `now`: `upstream` is the upstream's
/// response, or the message of the transport failure.
/// A response is classified, logged with its status and body, and passed back; the
/// key is retired where the classifier says so. A transport failure is logged as an
/// error with no status and an empty body, retires nothing, and is passed back.
pub fn settle_attempt(
    key: &str,
    request: &ProxyRequest,
    upstream: Result<ProxyResponse, String>,
    now: i64,
) -> (s: Settlement)
    ensures
        s.log.key@ == key@,
        s.log.method@ == request.method@,
        s.log.path@ == request.path@,
        opt_view(s.log.query) == opt_view(request.query),
        s.log.created_at == now,
        match upstream {
            Ok(resp) => {
                let a = attempt_analysis(resp.status, resp.body@);
                &&& s.log.status_code == Some(resp.status)
                &&& s.log.error_message is None
                &&& s.log.outcome == a.outcome
                &&& s.log.response_body@ == resp.body@
                &&& s.retire_key == a.retire_key
                &&& s.reply == Ok::<ProxyResponse, ProxyError>(resp)
            },
            Err(msg) => {
                &&& s.log.status_code is None
                &&& opt_view(s.log.error_message) == Some(msg@)
                &&& s.log.outcome == Verdict::Error
                &&& s.log.response_body@.len() == 0
                &&& !s.retire_key
                &&& s.reply == Err::<ProxyResponse, ProxyError>(ProxyError::Http(msg))
            },
        },
{
    match upstream {
        Ok(resp) => {
            let a = analyze_attempt(resp.status, resp.body.as_slice());
            let log = RequestLogEntry {
                key: key.to_owned(),
                method: request.method.clone(),
                path: request.path.clone(),
                query: copy_opt(&request.query),
                status_code: Some(resp.status),
                error_message: None,
                outcome: a.outcome,
                response_body: copy_bytes(resp.body.as_slice()),
                created_at: now,
            };
            Settlement { log, retire_key: a.retire_key, reply: Ok(resp) }
        },
        Err(msg) => {
            let log = RequestLogEntry {
                key: key.to_owned(),
                method: request.method.clone(),
                path: request.path.clone(),
                query: copy_opt(&request.query),
                status_code: None,
                error_message: Some(msg.clone()),
                outcome: Verdict::Error,
                response_body: Vec::new(),
                created_at: now,
            };
            Settlement { log, retire_key: false, reply: Err(ProxyError::Http(msg)) }
        },
    }
}

impl Settlement {
    /// The answer to the caller once the log line was written, or failed to be: the
    /// outcome of writing the log does not change it.
    pub fn respond(self, logged: Result<(), ProxyError>) -> (r: Result<ProxyResponse, ProxyError>)
        ensures
            r == self.reply,
    {
        let _ = logged;
        self.reply
    }
}

/// The first characters of a key (up to six bytes), then an ellipsis.
pub fn preview_key(key: &str) -> (r: String)
    requires
        vstd::utf8::is_char_boundary(
            key.spec_bytes(),
            if key.spec_bytes().len() < 6 { key.spec_bytes().len() as int } else { 6 },
        ),
    ensures
        exists|head: Seq<char>|
            r@ == head + seq!['\u{2026}'] && encode_utf8(head) == encode_utf8(key@).subrange(
                0,
                if encode_utf8(key@).len() < 6 { encode_utf8(key@).len() as int } else { 6 },
            ),
{
    let n = key.as_bytes().len();
    let shown: usize = if n < 6 { n } else { 6 };
    let (head, _) = key.split_at(shown);
    let mut cs = chars_of(head);
    let ghost h = cs@;
    assert(encode_utf8(h) == head.spec_bytes());
    cs.push('\u{2026}');
    let r = string_of(cs.as_slice());
    assert(r@ =~= h + seq!['\u{2026}']);
    r
}

/// The path with its query, where there is a non-empty one.
pub fn compose_path(path: &str, query: Option<&str>) -> (r: String)
    ensures
        r@ == (match query {
            Some(q) => if q@.len() > 0 { path@ + seq!['?'] + q@ } else { path@ },
            None => path@,
        }),
{
    match query {
        Some(q) => {
            if q.is_empty() {
                path.to_owned()
            } else {
                let mut cs = chars_of(path);
                cs.push('?');
                let qs = chars_of(q);
                let mut i: usize = 0;
                let ghost base = cs@;
                while i < qs.len()
                    invariant
                        i <= qs@.len(),
                        cs@ =~= base + qs@.subrange(0, i as int),
                    decreases qs@.len() - i,
                {
                    cs.push(qs[i]);
                    i += 1;
                }
                assert(qs@.subrange(0, qs@.len() as int) =~= qs@);
                string_of(cs.as_slice())
            }
        },
        None => path.to_owned(),
    }
}

/// The request quota a key is given when none is stated.
pub fn default_limit() -> (r: i64)
    ensures
        r == 1000,
{
    1000
}

} // verus!
