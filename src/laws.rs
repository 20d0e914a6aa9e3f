use vstd::prelude::*;
use vstd::utf8::valid_utf8;
use crate::classify::{aggregate, attempt_analysis, message_outcome, AttemptAnalysis, MessageOutcome, Verdict};
use crate::json::Json;
use crate::store::{
    any_active, changed_before, exhaust_all, fallback_before, is_choice, keys_unique, leased,
    lru_before, reset_all, touch_all, KeyModel, KeyStatus,
};
use crate::text::lemma_text_lt_total;

verus! {

/// Among active keys with distinct last-use times, a lease hands out the one used
/// least recently, and afterwards that key carries the latest last-use time.
pub proof fn lemma_lease_least_recently_used(
    recs: Seq<KeyModel>,
    now: i64,
    month_start: i64,
    key: Seq<char>,
    after: Seq<KeyModel>,
)
    requires
        keys_unique(recs),
        forall|i: int| 0 <= i < recs.len() ==> recs[i].status == KeyStatus::Active,
        forall|i: int, j: int|
            0 <= i < recs.len() && 0 <= j < recs.len() && i != j ==> recs[i].last_used_at
                != recs[j].last_used_at,
        forall|i: int| 0 <= i < recs.len() ==> recs[i].last_used_at <= now,
        leased(recs, now, month_start, key),
        after == touch_all(reset_all(recs, now, month_start), key, now),
    ensures
        exists|i: int|
            0 <= i < recs.len() && recs[i].key == key && forall|j: int|
                0 <= j < recs.len() && j != i ==> recs[i].last_used_at < recs[j].last_used_at,
        exists|i: int| 0 <= i < after.len() && after[i].key == key && after[i].last_used_at == now,
        forall|j: int| 0 <= j < after.len() ==> after[j].last_used_at <= now,
{
    let reset = reset_all(recs, now, month_start);
    assert forall|j: int| 0 <= j < recs.len() implies reset[j] == recs[j] by {
        assert(recs[j].status == KeyStatus::Active);
    }
    assert(reset =~= recs);
    let i = choose|i: int| is_choice(reset, i) && #[trigger] reset[i].key == key;
    assert(is_choice(recs, i));
    assert(any_active(recs));
    assert forall|j: int| 0 <= j < recs.len() && j != i implies recs[i].last_used_at
        < recs[j].last_used_at by {
        assert(recs[j].status == KeyStatus::Active);
        assert(!lru_before(recs[j], recs[i]));
        assert(recs[i].last_used_at != recs[j].last_used_at);
    }
    assert(after[i].key == key && after[i].last_used_at == now);
    assert forall|j: int| 0 <= j < after.len() implies after[j].last_used_at <= now by {
        assert(reset[j] == recs[j]);
    }
}

/// With unique keys, the record to lease is determined: no two records qualify.
pub proof fn lemma_choice_unique(recs: Seq<KeyModel>, i: int, j: int)
    requires
        keys_unique(recs),
        is_choice(recs, i),
        is_choice(recs, j),
    ensures
        i == j,
{
    if i != j {
        lemma_text_lt_total(recs[i].key, recs[j].key);
        if any_active(recs) {
            assert(!lru_before(recs[j], recs[i]));
            assert(!lru_before(recs[i], recs[j]));
        } else {
            assert(!fallback_before(recs[j], recs[i]));
            assert(!fallback_before(recs[i], recs[j]));
        }
    }
}

/// With every key exhausted and none due for the monthly reset, a lease hands out
/// the key whose status changed earliest, one never changed first.
pub proof fn lemma_lease_fallback_earliest(
    recs: Seq<KeyModel>,
    now: i64,
    month_start: i64,
    key: Seq<char>,
)
    requires
        forall|i: int| 0 <= i < recs.len() ==> recs[i].status == KeyStatus::Exhausted,
        forall|i: int|
            0 <= i < recs.len() ==> recs[i].status_changed_at is None
                || recs[i].status_changed_at->0 >= month_start,
        leased(recs, now, month_start, key),
    ensures
        exists|i: int|
            0 <= i < recs.len() && recs[i].key == key && forall|j: int|
                0 <= j < recs.len() ==> !changed_before(
                    recs[j].status_changed_at,
                    recs[i].status_changed_at,
                ),
{
    let reset = reset_all(recs, now, month_start);
    assert(reset =~= recs);
    let i = choose|i: int| is_choice(reset, i) && #[trigger] reset[i].key == key;
    assert(!any_active(reset));
}

/// An exhausted key whose status changed before the month began is active again
/// after the next lease, whichever key that lease hands out.
pub proof fn lemma_lease_resets_monthly(
    recs: Seq<KeyModel>,
    now: i64,
    month_start: i64,
    key: Seq<char>,
    after: Seq<KeyModel>,
    i: int,
)
    requires
        0 <= i < recs.len(),
        recs[i].status == KeyStatus::Exhausted,
        recs[i].status_changed_at is Some,
        recs[i].status_changed_at->0 < month_start,
        after == touch_all(reset_all(recs, now, month_start), key, now),
    ensures
        after[i].status == KeyStatus::Active,
        after[i].status_changed_at == Some(now),
        after[i].key == recs[i].key,
{
}

/// A key marked exhausted at `t` is left as it is by a reset pass of a month that
/// began no later than `t`.
pub proof fn lemma_mark_then_reset_keeps_exhausted(
    recs: Seq<KeyModel>,
    key: Seq<char>,
    t: i64,
    now: i64,
    month_start: i64,
)
    requires
        month_start <= t,
    ensures
        forall|i: int|
            0 <= i < recs.len() && recs[i].key == key ==> {
                &&& #[trigger] reset_all(exhaust_all(recs, key, t), now, month_start)[i]
                    == exhaust_all(recs, key, t)[i]
                &&& exhaust_all(recs, key, t)[i].status == KeyStatus::Exhausted
            },
{
}

/// Reading messages in order, the first quota signal or error decides the verdict.
pub proof fn lemma_first_decisive_message(ms: Seq<Json>, k: int)
    requires
        0 <= k < ms.len(),
        message_outcome(ms[k]) == Some(MessageOutcome::QuotaExhausted) || message_outcome(ms[k])
            == Some(MessageOutcome::Error),
        forall|j: int|
            0 <= j < k ==> message_outcome(ms[j]) is None || message_outcome(ms[j]) == Some(
                MessageOutcome::Success,
            ),
    ensures
        aggregate(ms) == if message_outcome(ms[k]) == Some(MessageOutcome::QuotaExhausted) {
            Verdict::QuotaExhausted
        } else {
            Verdict::Error
        },
    decreases k,
{
    if k > 0 {
        let rest = ms.drop_first();
        assert forall|j: int| 0 <= j < k - 1 implies message_outcome(rest[j]) is None
            || message_outcome(rest[j]) == Some(MessageOutcome::Success) by {
            assert(rest[j] == ms[j + 1]);
        }
        lemma_first_decisive_message(rest, k - 1);
    }
}

/// Where no message signals a quota or an error, the verdict is a success if one
/// message succeeded, and unknown otherwise.
pub proof fn lemma_no_decisive_message(ms: Seq<Json>)
    requires
        forall|j: int|
            0 <= j < ms.len() ==> message_outcome(ms[j]) is None || message_outcome(ms[j])
                == Some(MessageOutcome::Success),
    ensures
        aggregate(ms) == if exists|j: int|
            0 <= j < ms.len() && message_outcome(ms[j]) == Some(MessageOutcome::Success) {
            Verdict::Success
        } else {
            Verdict::Unknown
        },
    decreases ms.len(),
{
    if ms.len() > 0 {
        let rest = ms.drop_first();
        assert forall|j: int| 0 <= j < rest.len() implies message_outcome(rest[j]) is None
            || message_outcome(rest[j]) == Some(MessageOutcome::Success) by {
            assert(rest[j] == ms[j + 1]);
        }
        lemma_no_decisive_message(rest);
        if exists|j: int| 0 <= j < rest.len() && message_outcome(rest[j]) == Some(MessageOutcome::Success) {
            let j = choose|j: int| 0 <= j < rest.len() && message_outcome(rest[j]) == Some(MessageOutcome::Success);
            assert(ms[j + 1] == rest[j]);
        }
        if exists|j: int| 0 <= j < ms.len() && message_outcome(ms[j]) == Some(MessageOutcome::Success) {
            let j = choose|j: int| 0 <= j < ms.len() && message_outcome(ms[j]) == Some(MessageOutcome::Success);
            if j > 0 {
                assert(rest[j - 1] == ms[j]);
            }
        }
    }
}

/// The quota status code retires the key, whatever the body.
pub proof fn lemma_quota_status_retires(body: Seq<u8>)
    ensures
        attempt_analysis(432, body).retire_key,
{
}

/// A successful status with a body that is not UTF-8 says nothing of the call.
pub proof fn lemma_undecodable_body_unknown(status: u16, body: Seq<u8>)
    requires
        200 <= status < 300,
        !valid_utf8(body),
    ensures
        attempt_analysis(status, body) == (AttemptAnalysis {
            outcome: Verdict::Unknown,
            retire_key: false,
        }),
{
}

} // verus!
