use vstd::prelude::*;
use vstd::utf8::{decode_utf8, encode_utf8, valid_utf8};
use crate::json::{field_in, field_of, int_in, is_true, items_in, parse_json, parsed_json, text_in, Json};
use crate::sse::{body_messages, extract_messages};
use crate::text::{chars_of, decode_text, trim, trim_chars};

verus! {

/// What one message of a response says about the call.
#[derive(Debug, Clone, Copy, PartialEq, Eq, Structural)]
pub enum MessageOutcome {
    Success,
    Error,
    QuotaExhausted,
}

/// What a whole forwarding attempt came to.
#[derive(Debug, Clone, Copy, PartialEq, Eq, Structural)]
pub enum Verdict {
    Success,
    Error,
    QuotaExhausted,
    Unknown,
}

/// The verdict on an attempt, and whether its key must be retired.
#[derive(Debug, Clone, Copy, PartialEq, Eq, Structural)]
pub struct AttemptAnalysis {
    pub outcome: Verdict,
    pub retire_key: bool,
}

/// The status code at which the upstream signals an exhausted quota.
pub const QUOTA_STATUS: u16 = 432;

pub open spec fn code_outcome(code: int) -> MessageOutcome {
    if code == 432 {
        MessageOutcome::QuotaExhausted
    } else if code >= 400 {
        MessageOutcome::Error
    } else {
        MessageOutcome::Success
    }
}

/// The integer at `status`, else the one at `detail.status`.
pub open spec fn status_code_of(v: Json) -> Option<i64> {
    match int_in(field_of(v, "status"@)) {
        Some(c) => Some(c),
        None => int_in(field_in(field_of(v, "detail"@), "status"@)),
    }
}

/// A status code carried by a text that, trimmed, is a JSON object.
pub open spec fn embedded_status(text: Seq<char>) -> Option<i64> {
    let t = trim(text);
    if t.len() > 0 && t[0] == '{' {
        match parsed_json(t) {
            Some(v) => status_code_of(v),
            None => None,
        }
    } else {
        None
    }
}

/// The first item whose `text` carries a status code, classified.
pub open spec fn scan_texts(items: Seq<Json>) -> Option<MessageOutcome>
    decreases items.len(),
{
    if items.len() == 0 {
        None
    } else {
        match text_in(field_of(items[0], "text"@)) {
            Some(t) => match embedded_status(t) {
                Some(c) => Some(code_outcome(c as int)),
                None => scan_texts(items.drop_first()),
            },
            None => scan_texts(items.drop_first()),
        }
    }
}

pub open spec fn ascii_lower(b: u8) -> u8 {
    if 65 <= b && b <= 90 {
        (b + 32) as u8
    } else {
        b
    }
}

/// Whether a text is `error` in any mix of ASCII cases.
pub open spec fn names_error(s: Seq<char>) -> bool {
    let b = encode_utf8(s);
    b.len() == 5 && ascii_lower(b[0]) == 101 && ascii_lower(b[1]) == 114 && ascii_lower(b[2])
        == 114 && ascii_lower(b[3]) == 111 && ascii_lower(b[4]) == 114
}

/// The first content item that is of type `error` or carries a status code in its text.
pub open spec fn scan_content(items: Seq<Json>) -> Option<MessageOutcome>
    decreases items.len(),
{
    if items.len() == 0 {
        None
    } else {
        let kind = text_in(field_of(items[0], "type"@));
        if kind is Some && names_error(kind->0) {
            Some(MessageOutcome::Error)
        } else {
            match text_in(field_of(items[0], "text"@)) {
                Some(t) => match embedded_status(t) {
                    Some(c) => Some(code_outcome(c as int)),
                    None => scan_content(items.drop_first()),
                },
                None => scan_content(items.drop_first()),
            }
        }
    }
}

/// The outcome that a `structuredContent` envelope gives.
pub open spec fn structured_outcome(s: Json) -> MessageOutcome {
    match status_code_of(s) {
        Some(c) => code_outcome(c as int),
        None => if is_true(field_of(s, "isError"@)) {
            MessageOutcome::Error
        } else {
            match items_in(field_of(s, "content"@)) {
                Some(items) => match scan_texts(items) {
                    Some(o) => o,
                    None => MessageOutcome::Success,
                },
                None => MessageOutcome::Success,
            }
        },
    }
}

/// The outcome that a `result` payload gives.
pub open spec fn result_outcome(r: Json) -> MessageOutcome {
    match field_of(r, "structuredContent"@) {
        Some(s) => structured_outcome(s),
        None => {
            let found = match items_in(field_of(r, "content"@)) {
                Some(items) => scan_content(items),
                None => None,
            };
            match found {
                Some(o) => o,
                None => if field_of(r, "error"@) is Some || is_true(field_of(r, "isError"@)) {
                    MessageOutcome::Error
                } else {
                    MessageOutcome::Success
                },
            }
        },
    }
}

/// The outcome of one message; `None` where it has neither `error` nor `result`.
pub open spec fn message_outcome(m: Json) -> Option<MessageOutcome> {
    if field_of(m, "error"@) is Some {
        Some(MessageOutcome::Error)
    } else {
        match field_of(m, "result"@) {
            Some(r) => Some(result_outcome(r)),
            None => None,
        }
    }
}

/// The messages' outcomes read in order: the first quota signal or error decides;
/// else any success makes a success; else nothing is known.
pub open spec fn aggregate(ms: Seq<Json>) -> Verdict
    decreases ms.len(),
{
    if ms.len() == 0 {
        Verdict::Unknown
    } else {
        match message_outcome(ms[0]) {
            Some(MessageOutcome::QuotaExhausted) => Verdict::QuotaExhausted,
            Some(MessageOutcome::Error) => Verdict::Error,
            Some(MessageOutcome::Success) => match aggregate(ms.drop_first()) {
                Verdict::Unknown => Verdict::Success,
                v => v,
            },
            None => aggregate(ms.drop_first()),
        }
    }
}

/// The verdict on an attempt from its HTTP status and body.
pub open spec fn attempt_verdict(status: u16, body: Seq<u8>) -> Verdict {
    if !(200 <= status && status < 300) {
        Verdict::Error
    } else if !valid_utf8(body) {
        Verdict::Unknown
    } else {
        aggregate(body_messages(decode_utf8(body)))
    }
}

pub open spec fn attempt_analysis(status: u16, body: Seq<u8>) -> AttemptAnalysis {
    let v = attempt_verdict(status, body);
    AttemptAnalysis { outcome: v, retire_key: v == Verdict::QuotaExhausted || status == 432 }
}

/// Classifies a status code: the quota code, another error code, or success.
pub fn classify_status_code(code: i64) -> (r: MessageOutcome)
    ensures
        r == code_outcome(code as int),
{
    if code == 432 {
        MessageOutcome::QuotaExhausted
    } else if code >= 400 {
        MessageOutcome::Error
    } else {
        MessageOutcome::Success
    }
}

/// The status code of a value, at `status` or at `detail.status`.
pub fn extract_status_code(value: &Json) -> (r: Option<i64>)
    ensures
        r == status_code_of(*value),
{
    if let Some(v) = value.get("status") {
        if let Some(code) = v.as_i64() {
            return Some(code);
        }
    }
    if let Some(detail) = value.get("detail") {
        if let Some(v) = detail.get("status") {
            return v.as_i64();
        }
    }
    None
}

/// The status code in a text that holds a JSON object.
pub fn parse_embedded_status(text: &str) -> (r: Option<i64>)
    ensures
        r == embedded_status(text@),
{
    let chars = chars_of(text);
    let trimmed = trim_chars(chars.as_slice());
    if trimmed.len() == 0 || trimmed[0] != '{' {
        return None;
    }
    match parse_json(trimmed.as_slice()) {
        Some(value) => extract_status_code(&value),
        None => None,
    }
}

/// The outcome given by the status code in an item's `text`, if it carries one.
fn item_text_outcome(item: &Json) -> (r: Option<MessageOutcome>)
    ensures
        r == (match text_in(field_of(*item, "text"@)) {
            Some(t) => match embedded_status(t) {
                Some(c) => Some(code_outcome(c as int)),
                None => None,
            },
            None => None,
        }),
{
    if let Some(t) = item.get("text") {
        if let Some(text) = t.as_str() {
            if let Some(code) = parse_embedded_status(text) {
                return Some(classify_status_code(code));
            }
        }
    }
    None
}

fn is_error_kind(s: &str) -> (r: bool)
    ensures
        r == names_error(s@),
{
    let b = s.as_bytes();
    b.len() == 5 && ascii_lower_byte(b[0]) == 101 && ascii_lower_byte(b[1]) == 114
        && ascii_lower_byte(b[2]) == 114 && ascii_lower_byte(b[3]) == 111 && ascii_lower_byte(b[4])
        == 114
}

fn ascii_lower_byte(b: u8) -> (r: u8)
    ensures
        r == ascii_lower(b),
{
    if 65 <= b && b <= 90 {
        b + 32
    } else {
        b
    }
}

/// The outcome that the `structuredContent` of a result gives, where it has one.
pub fn analyze_structured_content(result: &Json) -> (r: Option<MessageOutcome>)
    ensures
        r == (match field_of(*result, "structuredContent"@) {
            Some(s) => Some(structured_outcome(s)),
            None => None,
        }),
{
    let structured = match result.get("structuredContent") {
        Some(s) => s,
        None => return None,
    };
    if let Some(code) = extract_status_code(structured) {
        return Some(classify_status_code(code));
    }
    if let Some(flag) = structured.get("isError") {
        if let Some(true) = flag.as_bool() {
            return Some(MessageOutcome::Error);
        }
    }
    if let Some(c) = structured.get("content") {
        if let Some(items) = c.as_array() {
            let mut i: usize = 0;
            assert(items@.subrange(0, items@.len() as int) =~= items@);
            while i < items.len()
                invariant
                    field_of(*result, "structuredContent"@) == Some(*structured),
                    status_code_of(*structured) is None,
                    !is_true(field_of(*structured, "isError"@)),
                    items_in(field_of(*structured, "content"@)) == Some(items@),
                    i <= items@.len(),
                    scan_texts(items@) == scan_texts(items@.subrange(i as int, items@.len() as int)),
                decreases items@.len() - i,
            {
                assert(items@.subrange(i as int, items@.len() as int).drop_first()
                    =~= items@.subrange(i + 1, items@.len() as int));
                if let Some(o) = item_text_outcome(&items[i]) {
                    return Some(o);
                }
                i += 1;
            }
        }
    }
    Some(MessageOutcome::Success)
}

/// The outcome that a `result` payload gives.
pub fn analyze_result_payload(result: &Json) -> (r: MessageOutcome)
    ensures
        r == result_outcome(*result),
{
    if let Some(o) = analyze_structured_content(result) {
        return o;
    }
    if let Some(c) = result.get("content") {
        if let Some(items) = c.as_array() {
            let mut i: usize = 0;
            assert(items@.subrange(0, items@.len() as int) =~= items@);
            while i < items.len()
                invariant
                    field_of(*result, "structuredContent"@) is None,
                    items_in(field_of(*result, "content"@)) == Some(items@),
                    i <= items@.len(),
                    scan_content(items@) == scan_content(
                        items@.subrange(i as int, items@.len() as int),
                    ),
                decreases items@.len() - i,
            {
                assert(items@.subrange(i as int, items@.len() as int).drop_first()
                    =~= items@.subrange(i + 1, items@.len() as int));
                let item = &items[i];
                if let Some(k) = item.get("type") {
                    if let Some(kind) = k.as_str() {
                        if is_error_kind(kind) {
                            return MessageOutcome::Error;
                        }
                    }
                }
                if let Some(o) = item_text_outcome(item) {
                    return o;
                }
                i += 1;
            }
        }
    }
    if result.get("error").is_some() {
        return MessageOutcome::Error;
    }
    if let Some(flag) = result.get("isError") {
        if let Some(true) = flag.as_bool() {
            return MessageOutcome::Error;
        }
    }
    MessageOutcome::Success
}

/// The outcome of one JSON message, where it has an `error` or a `result`.
pub fn analyze_json_message(value: &Json) -> (r: Option<MessageOutcome>)
    ensures
        r == message_outcome(*value),
{
    if value.get("error").is_some() {
        return Some(MessageOutcome::Error);
    }
    match value.get("result") {
        Some(result) => Some(analyze_result_payload(result)),
        None => None,
    }
}

/// Reads the messages in order (see `aggregate`).
pub fn aggregate_messages(messages: &[Json]) -> (r: Verdict)
    ensures
        r == aggregate(messages@),
{
    let mut any_success = false;
    let mut i: usize = 0;
    assert(messages@.subrange(0, messages@.len() as int) =~= messages@);
    while i < messages.len()
        invariant
            i <= messages@.len(),
            aggregate(messages@) == (if any_success {
                match aggregate(messages@.subrange(i as int, messages@.len() as int)) {
                    Verdict::Unknown => Verdict::Success,
                    v => v,
                }
            } else {
                aggregate(messages@.subrange(i as int, messages@.len() as int))
            }),
        decreases messages@.len() - i,
    {
        assert(messages@.subrange(i as int, messages@.len() as int).drop_first()
            =~= messages@.subrange(i + 1, messages@.len() as int));
        match analyze_json_message(&messages[i]) {
            Some(MessageOutcome::QuotaExhausted) => return Verdict::QuotaExhausted,
            Some(MessageOutcome::Error) => return Verdict::Error,
            Some(MessageOutcome::Success) => any_success = true,
            None => {},
        }
        i += 1;
    }
    if any_success {
        Verdict::Success
    } else {
        Verdict::Unknown
    }
}

/// Classifies one forwarding attempt from its HTTP status and raw body.
pub fn analyze_attempt(status: u16, body: &[u8]) -> (r: AttemptAnalysis)
    ensures
        r == attempt_analysis(status, body@),
{
    let retire_on_status = status == QUOTA_STATUS;
    if !(200 <= status && status < 300) {
        return AttemptAnalysis { outcome: Verdict::Error, retire_key: retire_on_status };
    }
    let text = match decode_text(body) {
        Some(t) => t,
        None => return AttemptAnalysis { outcome: Verdict::Unknown, retire_key: retire_on_status },
    };
    let messages = extract_messages(text.as_slice());
    let outcome = aggregate_messages(messages.as_slice());
    AttemptAnalysis {
        outcome,
        retire_key: outcome == Verdict::QuotaExhausted || retire_on_status,
    }
}

} // verus!
