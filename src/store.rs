use vstd::prelude::*;
use crate::clock::{current_time, month_floor, start_of_month, MAX_CALENDAR_TIME, MIN_CALENDAR_TIME};
use crate::error::ProxyError;
use crate::text::{
    chars_of, lemma_bytes_lt_irreflexive, lemma_bytes_lt_transitive, str_eq, str_lt, string_of,
    text_lt, trim, trim_chars,
};
use vstd::utf8::encode_utf8;

verus! {

/// The health of a key.
#[derive(Debug, Clone, Copy, PartialEq, Eq, Structural)]
pub enum KeyStatus {
    Active,
    Exhausted,
}

/// A key record as a mathematical value.
pub struct KeyModel {
    pub key: Seq<char>,
    pub status: KeyStatus,
    pub status_changed_at: Option<i64>,
    pub last_used_at: i64,
}

/// One credential key with its health and usage times (seconds since the epoch).
#[derive(Debug)]
pub struct ApiKeyRecord {
    pub key: String,
    pub status: KeyStatus,
    pub status_changed_at: Option<i64>,
    pub last_used_at: i64,
}

impl View for ApiKeyRecord {
    type V = KeyModel;

    open spec fn view(&self) -> KeyModel {
        KeyModel {
            key: self.key@,
            status: self.status,
            status_changed_at: self.status_changed_at,
            last_used_at: self.last_used_at,
        }
    }
}

/// A row as persisted, possibly in an older layout: `status` may be missing or
/// blank, and `status_changed_at` may hold what a legacy `disabled_at` column held.
#[derive(Debug)]
pub struct StoredRow {
    pub key: String,
    pub status: Option<String>,
    pub status_changed_at: Option<i64>,
    pub last_used_at: i64,
}

/// The status a stored row stands for. A row of the legacy layout has no status
/// text (missing or blank): its change time, the old `disabled_at`, marks it exhausted
/// where it is set and non-zero, active otherwise. A row with status text is active
/// where the text is `active`, and not active for any other text.
pub open spec fn row_status(status: Option<Seq<char>>, changed: Option<i64>) -> KeyStatus {
    if status is None || status->0.len() == 0 {
        if changed is Some && changed->0 != 0 {
            KeyStatus::Exhausted
        } else {
            KeyStatus::Active
        }
    } else if status->0 == "active"@ {
        KeyStatus::Active
    } else {
        KeyStatus::Exhausted
    }
}

pub open spec fn row_model(r: StoredRow) -> KeyModel {
    let status = match r.status {
        Some(s) => Some(s@),
        None => None,
    };
    KeyModel {
        key: r.key@,
        status: row_status(status, r.status_changed_at),
        status_changed_at: r.status_changed_at,
        last_used_at: r.last_used_at,
    }
}

pub open spec fn models(v: Seq<ApiKeyRecord>) -> Seq<KeyModel> {
    v.map_values(|r: ApiKeyRecord| r@)
}

pub open spec fn texts(v: Seq<String>) -> Seq<Seq<char>> {
    v.map_values(|s: String| s@)
}

pub open spec fn has_key(recs: Seq<KeyModel>, k: Seq<char>) -> bool {
    exists|i: int| 0 <= i < recs.len() && recs[i].key == k
}

pub open spec fn keys_unique(recs: Seq<KeyModel>) -> bool {
    forall|i: int, j: int|
        0 <= i < recs.len() && 0 <= j < recs.len() && i != j ==> recs[i].key != recs[j].key
}

/// A key as it is first stored: active, never changed, never used.
pub open spec fn fresh(k: Seq<char>) -> KeyModel {
    KeyModel { key: k, status: KeyStatus::Active, status_changed_at: None, last_used_at: 0 }
}

/// The configured keys, trimmed, without the blank ones.
pub open spec fn sanitized(keys: Seq<Seq<char>>) -> Seq<Seq<char>>
    decreases keys.len(),
{
    if keys.len() == 0 {
        Seq::<Seq<char>>::empty()
    } else {
        let init = sanitized(keys.drop_last());
        let t = trim(keys.last());
        if t.len() > 0 {
            init.push(t)
        } else {
            init
        }
    }
}

/// Every key is already trimmed and not blank.
pub open spec fn all_clean(keys: Seq<Seq<char>>) -> bool {
    forall|i: int| 0 <= i < keys.len() ==> trim(#[trigger] keys[i]) == keys[i] && keys[i].len() > 0
}

/// Keys that are already trimmed and not blank are kept as they are.
pub proof fn lemma_sanitized_clean(keys: Seq<Seq<char>>)
    requires
        all_clean(keys),
    ensures
        sanitized(keys) == keys,
    decreases keys.len(),
{
    if keys.len() > 0 {
        let init = keys.drop_last();
        assert forall|i: int| 0 <= i < init.len() implies trim(#[trigger] init[i]) == init[i]
            && init[i].len() > 0 by {
            assert(init[i] == keys[i]);
        }
        lemma_sanitized_clean(init);
        assert(trim(keys.last()) == keys[keys.len() - 1]);
        assert(keys =~= init.push(keys.last()));
    }
}

/// The monthly reset of one record: an exhausted key whose status changed before
/// the month began is active again, changed `now`.
pub open spec fn reset_record(r: KeyModel, now: i64, month_start: i64) -> KeyModel {
    if r.status == KeyStatus::Exhausted && r.status_changed_at is Some && r.status_changed_at->0
        < month_start {
        KeyModel { status: KeyStatus::Active, status_changed_at: Some(now), ..r }
    } else {
        r
    }
}

pub open spec fn reset_all(recs: Seq<KeyModel>, now: i64, month_start: i64) -> Seq<KeyModel> {
    recs.map_values(|r: KeyModel| reset_record(r, now, month_start))
}

/// The records with the one named `key` stamped as used at `now`.
pub open spec fn touch_all(recs: Seq<KeyModel>, key: Seq<char>, now: i64) -> Seq<KeyModel> {
    recs.map_values(
        |r: KeyModel|
            if r.key == key {
                KeyModel { last_used_at: now, ..r }
            } else {
                r
            },
    )
}

/// The records with the one named `key` marked exhausted at `now`.
pub open spec fn exhaust_all(recs: Seq<KeyModel>, key: Seq<char>, now: i64) -> Seq<KeyModel> {
    recs.map_values(
        |r: KeyModel|
            if r.key == key {
                KeyModel {
                    status: KeyStatus::Exhausted,
                    status_changed_at: Some(now),
                    last_used_at: now,
                    ..r
                }
            } else {
                r
            },
    )
}

/// Least recently used first; equal times by key.
pub open spec fn lru_before(a: KeyModel, b: KeyModel) -> bool {
    a.last_used_at < b.last_used_at || (a.last_used_at == b.last_used_at && text_lt(a.key, b.key))
}

/// Change times in order, a missing one first.
pub open spec fn changed_before(a: Option<i64>, b: Option<i64>) -> bool {
    match (a, b) {
        (None, Some(_)) => true,
        (Some(x), Some(y)) => x < y,
        _ => false,
    }
}

/// Longest exhausted first; equal change times by key.
pub open spec fn fallback_before(a: KeyModel, b: KeyModel) -> bool {
    changed_before(a.status_changed_at, b.status_changed_at) || (a.status_changed_at
        == b.status_changed_at && text_lt(a.key, b.key))
}

pub open spec fn any_active(recs: Seq<KeyModel>) -> bool {
    exists|j: int| 0 <= j < recs.len() && recs[j].status == KeyStatus::Active
}

/// Record `i` is the one to lease: the least recently used active key, or, where
/// no key is active, the key exhausted longest.
pub open spec fn is_choice(recs: Seq<KeyModel>, i: int) -> bool {
    &&& 0 <= i < recs.len()
    &&& if any_active(recs) {
        &&& recs[i].status == KeyStatus::Active
        &&& forall|j: int|
            0 <= j < recs.len() && recs[j].status == KeyStatus::Active ==> !lru_before(
                recs[j],
                recs[i],
            )
    } else {
        forall|j: int| 0 <= j < recs.len() ==> !fallback_before(recs[j], recs[i])
    }
}

/// `key` is the key that a lease at `now` hands out from `recs`, in a month that began
/// at `month_start`: chosen after the monthly reset.
pub open spec fn leased(recs: Seq<KeyModel>, now: i64, month_start: i64, key: Seq<char>) -> bool {
    exists|i: int|
        is_choice(reset_all(recs, now, month_start), i) && #[trigger] reset_all(
            recs,
            now,
            month_start,
        )[i].key == key
}

proof fn lemma_lru_transitive(a: KeyModel, b: KeyModel, c: KeyModel)
    requires
        lru_before(a, b),
        lru_before(b, c),
    ensures
        lru_before(a, c),
{
    if a.last_used_at == b.last_used_at && b.last_used_at == c.last_used_at {
        lemma_bytes_lt_transitive(encode_utf8(a.key), encode_utf8(b.key), encode_utf8(c.key));
    }
}

proof fn lemma_lru_irreflexive(a: KeyModel)
    ensures
        !lru_before(a, a),
{
    lemma_bytes_lt_irreflexive(encode_utf8(a.key));
}

proof fn lemma_fallback_transitive(a: KeyModel, b: KeyModel, c: KeyModel)
    requires
        fallback_before(a, b),
        fallback_before(b, c),
    ensures
        fallback_before(a, c),
{
    if a.status_changed_at == b.status_changed_at && b.status_changed_at == c.status_changed_at {
        lemma_bytes_lt_transitive(encode_utf8(a.key), encode_utf8(b.key), encode_utf8(c.key));
    }
}

proof fn lemma_fallback_irreflexive(a: KeyModel)
    ensures
        !fallback_before(a, a),
{
    lemma_bytes_lt_irreflexive(encode_utf8(a.key));
}

fn record_lru_before(a: &ApiKeyRecord, b: &ApiKeyRecord) -> (r: bool)
    ensures
        r == lru_before(a@, b@),
{
    a.last_used_at < b.last_used_at || (a.last_used_at == b.last_used_at && str_lt(
        a.key.as_str(),
        b.key.as_str(),
    ))
}

fn record_fallback_before(a: &ApiKeyRecord, b: &ApiKeyRecord) -> (r: bool)
    ensures
        r == fallback_before(a@, b@),
{
    let earlier = match (a.status_changed_at, b.status_changed_at) {
        (None, Some(_)) => true,
        (Some(x), Some(y)) => x < y,
        _ => false,
    };
    let same = match (a.status_changed_at, b.status_changed_at) {
        (None, None) => true,
        (Some(x), Some(y)) => x == y,
        _ => false,
    };
    earlier || (same && str_lt(a.key.as_str(), b.key.as_str()))
}

/// A record with the same key and the given state.
fn with_state(r: &ApiKeyRecord, status: KeyStatus, changed: Option<i64>, last_used: i64) -> (c:
    ApiKeyRecord)
    ensures
        c@ == (KeyModel {
            key: r.key@,
            status,
            status_changed_at: changed,
            last_used_at: last_used,
        }),
{
    ApiKeyRecord {
        key: r.key.clone(),
        status,
        status_changed_at: changed,
        last_used_at: last_used,
    }
}

/// Reads a stored row, turning an older layout into the current one.
pub fn normalize_row(row: &StoredRow) -> (r: ApiKeyRecord)
    ensures
        r@ == row_model(*row),
{
    let legacy = match &row.status {
        None => true,
        Some(s) => s.as_str().is_empty(),
    };
    let status = if legacy {
        if row.status_changed_at.is_some() && row.status_changed_at.unwrap() != 0 {
            KeyStatus::Exhausted
        } else {
            KeyStatus::Active
        }
    } else {
        match &row.status {
            Some(s) if str_eq(s.as_str(), "active") => KeyStatus::Active,
            _ => KeyStatus::Exhausted,
        }
    };
    ApiKeyRecord {
        key: row.key.clone(),
        status,
        status_changed_at: row.status_changed_at,
        last_used_at: row.last_used_at,
    }
}

/// The configured keys, trimmed, without the blank ones.
pub fn sanitize_keys(keys: &Vec<String>) -> (r: Vec<String>)
    ensures
        texts(r@) == sanitized(texts(keys@)),
{
    let mut r: Vec<String> = Vec::new();
    let mut i: usize = 0;
    assert(texts(keys@).subrange(0, 0) =~= Seq::<Seq<char>>::empty());
    assert(texts(r@) =~= Seq::<Seq<char>>::empty());
    while i < keys.len()
        invariant
            i <= keys@.len(),
            texts(r@) == sanitized(texts(keys@).subrange(0, i as int)),
        decreases keys@.len() - i,
    {
        assert(texts(keys@).subrange(0, i + 1).drop_last() =~= texts(keys@).subrange(0, i as int));
        assert(texts(keys@).subrange(0, i + 1).last() == keys@[i as int]@);
        let chars = chars_of(keys[i].as_str());
        let t = trim_chars(chars.as_slice());
        if t.len() > 0 {
            let ghost before = texts(r@);
            r.push(string_of(t.as_slice()));
            assert(texts(r@) =~= before.push(t@));
        }
        i += 1;
    }
    assert(texts(keys@).subrange(0, keys@.len() as int) =~= texts(keys@));
    r
}

/// The persistent table of keys: one record per key.
pub struct KeyStore {
    records: Vec<ApiKeyRecord>,
}

impl View for KeyStore {
    type V = Seq<KeyModel>;

    closed spec fn view(&self) -> Seq<KeyModel> {
        models(self.records@)
    }
}

impl KeyStore {
    pub open spec fn wf(&self) -> bool {
        keys_unique(self@)
    }

    /// The records, in the order they are held.
    pub fn records(&self) -> (r: &Vec<ApiKeyRecord>)
        ensures
            models(r@) == self@,
    {
        &self.records
    }

    /// Whether a record holds `key`.
    pub fn contains_key(&self, key: &str) -> (r: bool)
        ensures
            r == has_key(self@, key@),
    {
        let mut i: usize = 0;
        while i < self.records.len()
            invariant
                i <= self.records@.len(),
                self@ == models(self.records@),
                forall|j: int| 0 <= j < i ==> self@[j].key != key@,
            decreases self.records@.len() - i,
        {
            if str_eq(self.records[i].key.as_str(), key) {
                assert(self@[i as int].key == key@);
                return true;
            }
            i += 1;
        }
        false
    }

    /// The store that holds the rows read from storage, each in the current layout;
    /// of rows that repeat a key only the first is kept.
    pub fn from_rows(rows: Vec<StoredRow>) -> (s: KeyStore)
        ensures
            s.wf(),
            forall|k: Seq<char>|
                has_key(s@, k) <==> exists|j: int| 0 <= j < rows@.len() && rows@[j].key@ == k,
            forall|i: int|
                #![trigger s@[i]]
                0 <= i < s@.len() ==> exists|j: int|
                    0 <= j < rows@.len() && s@[i] == row_model(#[trigger] rows@[j]),
    {
        let mut s = KeyStore { records: Vec::new() };
        let ghost all = rows@;
        let mut x: usize = 0;
        while x < rows.len()
            invariant
                all == rows@,
                x <= all.len(),
                s.wf(),
                forall|k: Seq<char>|
                    has_key(s@, k) <==> exists|j: int| 0 <= j < x && all[j].key@ == k,
                forall|i: int|
                    #![trigger s@[i]]
                    0 <= i < s@.len() ==> exists|j: int|
                        0 <= j < all.len() && s@[i] == row_model(#[trigger] all[j]),
            decreases all.len() - x,
        {
            let row = &rows[x];
            let ghost idx = x as int;
            assert(*row == all[idx]);
            let present = s.contains_key(row.key.as_str());
            let ghost s_old = s@;
            if !present {
                let rec = normalize_row(row);
                s.records.push(rec);
                assert(s@ =~= s_old.push(rec@));
                assert(s@[s@.len() - 1] == row_model(all[idx]));
            } else {
                assert(s@ == s_old);
            }
            x += 1;
            assert forall|k: Seq<char>|
                has_key(s@, k) <==> exists|j: int| 0 <= j < x && all[j].key@ == k by {
                if has_key(s@, k) {
                    let i = choose|i: int| 0 <= i < s@.len() && s@[i].key == k;
                    if i < s_old.len() {
                        assert(s_old[i] == s@[i]);
                        assert(has_key(s_old, k));
                        let j = choose|j: int| 0 <= j < idx && all[j].key@ == k;
                        assert(0 <= j < x && all[j].key@ == k);
                    } else {
                        assert(all[idx].key@ == k);
                    }
                }
                if exists|j: int| 0 <= j < x && all[j].key@ == k {
                    let j = choose|j: int| 0 <= j < x && all[j].key@ == k;
                    if j < idx {
                        assert(has_key(s_old, k));
                        let i = choose|i: int| 0 <= i < s_old.len() && s_old[i].key == k;
                        assert(s@[i] == s_old[i]);
                    } else if present {
                        assert(has_key(s_old, k));
                        let i = choose|i: int| 0 <= i < s_old.len() && s_old[i].key == k;
                        assert(s@[i] == s_old[i]);
                    } else {
                        assert(s@[s@.len() - 1].key == k);
                    }
                }
            }
        }
        s
    }

    /// Brings the records in line with the configured keys: a missing key is added
    /// fresh, a record whose key is not configured is removed, the others are kept.
    pub fn sync_keys(&mut self, keys: &Vec<String>)
        requires
            old(self).wf(),
        ensures
            final(self).wf(),
            forall|k: Seq<char>| has_key(final(self)@, k) <==> texts(keys@).contains(k),
            forall|i: int|
                0 <= i < final(self)@.len() ==> if has_key(old(self)@, final(self)@[i].key) {
                    old(self)@.contains(final(self)@[i])
                } else {
                    final(self)@[i] == fresh(final(self)@[i].key)
                },
    {
        let ghost start = self@;
        let mut i: usize = 0;
        while i < keys.len()
            invariant
                i <= keys@.len(),
                self.wf(),
                forall|k: Seq<char>|
                    #[trigger] has_key(self@, k) <==> (has_key(start, k) || among(
                        keys@,
                        i as int,
                        k,
                    )),
                forall|x: int|
                    0 <= x < self@.len() ==> if has_key(start, self@[x].key) {
                        start.contains(self@[x])
                    } else {
                        self@[x] == fresh(self@[x].key)
                    },
            decreases keys@.len() - i,
        {
            let present = self.contains_key(keys[i].as_str());
            let ghost s_old = self@;
            assert(forall|k: Seq<char>|
                has_key(s_old, k) <==> (has_key(start, k) || among(keys@, i as int, k)));
            if !present {
                let rec = ApiKeyRecord {
                    key: keys[i].clone(),
                    status: KeyStatus::Active,
                    status_changed_at: None,
                    last_used_at: 0,
                };
                self.records.push(rec);
                assert(self@ =~= s_old.push(fresh(keys@[i as int]@)));
                assert(self@[self@.len() - 1].key == keys@[i as int]@);
            } else {
                assert(self@ == s_old);
            }
            let ghost ii = i;
            i += 1;
            assert forall|k: Seq<char>|
                #[trigger] has_key(self@, k) <==> (has_key(start, k) || among(keys@, i as int, k)) by {
                if has_key(self@, k) {
                    let x = choose|x: int| 0 <= x < self@.len() && self@[x].key == k;
                    if x < s_old.len() {
                        assert(s_old[x] == self@[x]);
                        assert(has_key(s_old, k));
                    } else {
                        assert(keys@[ii as int]@ == k);
                    }
                }
                if has_key(start, k) || among(keys@, i as int, k) {
                    let in_old = has_key(start, k) || among(keys@, ii as int, k);
                    if !in_old {
                        let j = choose|j: int| 0 <= j < i && keys@[j]@ == k;
                        assert(j == ii);
                        assert(k == keys@[ii as int]@);
                    }
                    if in_old || present {
                        assert(has_key(s_old, k) <==> (has_key(start, k) || among(keys@, ii as int, k)));
                        assert(has_key(s_old, k));
                        let x = choose|x: int| 0 <= x < s_old.len() && s_old[x].key == k;
                        assert(self@[x] == s_old[x]);
                    } else {
                        assert(self@[self@.len() - 1].key == k);
                    }
                }
            }
        }
        assert forall|k: Seq<char>|
            has_key(self@, k) <==> (has_key(start, k) || texts(keys@).contains(k)) by {
            assert(has_key(self@, k) <==> (has_key(start, k) || among(keys@, i as int, k)));
            assert(i == keys@.len());
            if exists|j: int| 0 <= j < keys@.len() && keys@[j]@ == k {
                let j = choose|j: int| 0 <= j < keys@.len() && keys@[j]@ == k;
                assert(texts(keys@)[j] == k);
            }
            if texts(keys@).contains(k) {
                let j = choose|j: int| 0 <= j < texts(keys@).len() && texts(keys@)[j] == k;
                assert(keys@[j]@ == k);
            }
        }
        let mut kept: Vec<ApiKeyRecord> = Vec::new();
        let mut x: usize = 0;
        let ghost mid = self@;
        while x < self.records.len()
            invariant
                x <= self.records@.len(),
                self@ == mid,
                keys_unique(mid),
                keys_unique(models(kept@)),
                forall|k: Seq<char>|
                    has_key(mid, k) <==> (has_key(start, k) || texts(keys@).contains(k)),
                forall|y: int| 0 <= y < models(kept@).len() ==> mid.contains(#[trigger] models(kept@)[y]),
                forall|k: Seq<char>|
                    has_key(models(kept@), k) <==> (texts(keys@).contains(k) && exists|y: int|
                        0 <= y < x && mid[y].key == k),
            decreases self.records@.len() - x,
        {
            let wanted = contains_text(keys, self.records[x].key.as_str());
            assert(self.records@[x as int]@ == mid[x as int]);
            assert(wanted == texts(keys@).contains(mid[x as int].key));
            let ghost before = models(kept@);
            if wanted {
                let rec = with_state(
                    &self.records[x],
                    self.records[x].status,
                    self.records[x].status_changed_at,
                    self.records[x].last_used_at,
                );
                kept.push(rec);
                assert(models(kept@) =~= before.push(mid[x as int]));
                assert(models(kept@)[before.len() as int] == mid[x as int]);
                assert forall|a: int, b: int|
                    0 <= a < models(kept@).len() && 0 <= b < models(kept@).len() && a != b
                        implies models(kept@)[a].key != models(kept@)[b].key by {
                    if a == before.len() || b == before.len() {
                        let other = if a == before.len() { b } else { a };
                        if models(kept@)[other].key == mid[x as int].key {
                            assert(models(kept@)[other] == before[other]);
                            assert(has_key(before, mid[x as int].key));
                            let y = choose|y: int| 0 <= y < x && mid[y].key == mid[x as int].key;
                            assert(false);
                        }
                    } else {
                        assert(models(kept@)[a] == before[a]);
                        assert(models(kept@)[b] == before[b]);
                    }
                }
            } else {
                assert(models(kept@) =~= before);
            }
            let ghost xx = x;
            x += 1;
            assert forall|k: Seq<char>|
                has_key(models(kept@), k) <==> (texts(keys@).contains(k) && exists|y: int|
                    0 <= y < x && mid[y].key == k) by {
                if has_key(models(kept@), k) {
                    let a = choose|a: int| 0 <= a < models(kept@).len() && models(kept@)[a].key == k;
                    if wanted && a == before.len() {
                        assert(mid[xx as int].key == k);
                    } else {
                        assert(models(kept@)[a] == before[a]);
                        assert(has_key(before, k));
                        let y = choose|y: int| 0 <= y < xx && mid[y].key == k;
                        assert(0 <= y < x);
                    }
                }
                if texts(keys@).contains(k) && exists|y: int| 0 <= y < x && mid[y].key == k {
                    let y = choose|y: int| 0 <= y < x && mid[y].key == k;
                    if y == xx {
                        assert(models(kept@)[before.len() as int].key == k);
                    } else {
                        assert(exists|y: int| 0 <= y < xx && mid[y].key == k);
                        assert(has_key(before, k));
                        let a = choose|a: int| 0 <= a < before.len() && before[a].key == k;
                        assert(models(kept@)[a] == before[a]);
                    }
                }
            }
        }
        self.records = kept;
        assert forall|k: Seq<char>| has_key(self@, k) <==> texts(keys@).contains(k) by {
            if texts(keys@).contains(k) {
                let j = choose|j: int| 0 <= j < texts(keys@).len() && texts(keys@)[j] == k;
                assert(keys@[j]@ == k);
                assert(has_key(mid, k));
            }
        }
    }

    /// The monthly reset pass: every exhausted key whose status changed before
    /// `month_start` is active again, changed `now`.
    pub fn reset_monthly(&mut self, now: i64, month_start: i64)
        requires
            old(self).wf(),
        ensures
            final(self).wf(),
            final(self)@ == reset_all(old(self)@, now, month_start),
    {
        let ghost start = self@;
        let mut i: usize = 0;
        while i < self.records.len()
            invariant
                i <= self.records@.len(),
                self@.len() == start.len(),
                forall|j: int| 0 <= j < i ==> self@[j] == reset_record(start[j], now, month_start),
                forall|j: int| i <= j < start.len() ==> self@[j] == start[j],
            decreases self.records@.len() - i,
        {
            let r = &self.records[i];
            if r.status == KeyStatus::Exhausted && r.status_changed_at.is_some()
                && r.status_changed_at.unwrap() < month_start {
                let fresh_state = with_state(r, KeyStatus::Active, Some(now), r.last_used_at);
                let ghost before = self@;
                self.records.set(i, fresh_state);
                assert(self@ =~= before.update(i as int, fresh_state@));
            }
            i += 1;
        }
        assert(self@ =~= reset_all(start, now, month_start));
        proof {
            lemma_same_keys_unique(start, self@);
        }
    }

    /// Stamps the record of `key` as used at `now`.
    pub fn touch_key(&mut self, key: &str, now: i64)
        requires
            old(self).wf(),
        ensures
            final(self).wf(),
            final(self)@ == touch_all(old(self)@, key@, now),
    {
        let ghost start = self@;
        let mut i: usize = 0;
        while i < self.records.len()
            invariant
                i <= self.records@.len(),
                self@.len() == start.len(),
                forall|j: int| 0 <= j < i ==> self@[j] == touch_all(start, key@, now)[j],
                forall|j: int| i <= j < start.len() ==> self@[j] == start[j],
            decreases self.records@.len() - i,
        {
            let r = &self.records[i];
            if str_eq(r.key.as_str(), key) {
                let stamped = with_state(r, r.status, r.status_changed_at, now);
                let ghost before = self@;
                self.records.set(i, stamped);
                assert(self@ =~= before.update(i as int, stamped@));
            }
            i += 1;
        }
        assert(self@ =~= touch_all(start, key@, now));
        proof {
            lemma_same_keys_unique(start, self@);
        }
    }

    /// Marks the record of `key` exhausted: status changed and last used `now`.
    pub fn mark_quota_exhausted(&mut self, key: &str, now: i64)
        requires
            old(self).wf(),
        ensures
            final(self).wf(),
            final(self)@ == exhaust_all(old(self)@, key@, now),
    {
        let ghost start = self@;
        let mut i: usize = 0;
        while i < self.records.len()
            invariant
                i <= self.records@.len(),
                self@.len() == start.len(),
                forall|j: int| 0 <= j < i ==> self@[j] == exhaust_all(start, key@, now)[j],
                forall|j: int| i <= j < start.len() ==> self@[j] == start[j],
            decreases self.records@.len() - i,
        {
            let r = &self.records[i];
            if str_eq(r.key.as_str(), key) {
                let marked = with_state(r, KeyStatus::Exhausted, Some(now), now);
                let ghost before = self@;
                self.records.set(i, marked);
                assert(self@ =~= before.update(i as int, marked@));
            }
            i += 1;
        }
        assert(self@ =~= exhaust_all(start, key@, now));
        proof {
            lemma_same_keys_unique(start, self@);
        }
    }

    /// The index of the record to lease (see `is_choice`); `None` for an empty store.
    pub fn select_index(&self) -> (r: Option<usize>)
        ensures
            r is None <==> self@.len() == 0,
            r is Some ==> is_choice(self@, r->0 as int),
    {
        let n = self.records.len();
        let mut best: Option<usize> = None;
        let mut i: usize = 0;
        while i < n
            invariant
                n == self@.len(),
                i <= n,
                best is None ==> forall|j: int| 0 <= j < i ==> self@[j].status != KeyStatus::Active,
                best is Some ==> {
                    let b = best->0 as int;
                    &&& b < i
                    &&& self@[b].status == KeyStatus::Active
                    &&& forall|j: int|
                        0 <= j < i && self@[j].status == KeyStatus::Active ==> !lru_before(
                            self@[j],
                            self@[b],
                        )
                },
            decreases n - i,
        {
            let r = &self.records[i];
            assert(r@ == self@[i as int]);
            if r.status == KeyStatus::Active {
                match best {
                    None => {
                        proof {
                            lemma_lru_irreflexive(self@[i as int]);
                        }
                        best = Some(i);
                    },
                    Some(b) => {
                        if record_lru_before(r, &self.records[b]) {
                            proof {
                                lemma_lru_irreflexive(self@[i as int]);
                                assert forall|j: int|
                                    0 <= j <= i && self@[j].status == KeyStatus::Active implies !lru_before(
                                    self@[j],
                                    self@[i as int],
                                ) by {
                                    if j < i && lru_before(self@[j], self@[i as int]) {
                                        lemma_lru_transitive(self@[j], self@[i as int], self@[b as int]);
                                    }
                                    if j == b {
                                        if lru_before(self@[j], self@[i as int]) {
                                            lemma_lru_transitive(self@[j], self@[i as int], self@[j]);
                                            lemma_lru_irreflexive(self@[j]);
                                        }
                                    }
                                }
                            }
                            best = Some(i);
                        }
                    },
                }
            }
            i += 1;
        }
        if best.is_some() {
            return best;
        }
        if n == 0 {
            return None;
        }
        let mut b: usize = 0;
        let mut i: usize = 1;
        proof {
            lemma_fallback_irreflexive(self@[0]);
        }
        while i < n
            invariant
                n == self@.len(),
                0 < i <= n,
                b < i,
                !any_active(self@),
                forall|j: int| 0 <= j < i ==> !fallback_before(self@[j], self@[b as int]),
            decreases n - i,
        {
            let r = &self.records[i];
            assert(r@ == self@[i as int]);
            if record_fallback_before(r, &self.records[b]) {
                proof {
                    lemma_fallback_irreflexive(self@[i as int]);
                    assert forall|j: int| 0 <= j <= i implies !fallback_before(
                        self@[j],
                        self@[i as int],
                    ) by {
                        if j < i && fallback_before(self@[j], self@[i as int]) {
                            lemma_fallback_transitive(self@[j], self@[i as int], self@[b as int]);
                        }
                    }
                }
                b = i;
            }
            i += 1;
        }
        Some(b)
    }

    /// Opens the store from the rows read from storage and the configured keys: the
    /// rows are brought to the current layout, then in line with the keys.
    pub fn initialize(rows: Vec<StoredRow>, keys: &Vec<String>) -> (r: Result<KeyStore, ProxyError>)
        ensures
            r is Err <==> sanitized(texts(keys@)).len() == 0,
            match r {
                Err(e) => e == ProxyError::EmptyKeySet,
                Ok(s) => {
                    &&& s.wf()
                    &&& forall|k: Seq<char>|
                        has_key(s@, k) <==> sanitized(texts(keys@)).contains(k)
                    &&& forall|i: int|
                        #![trigger s@[i]]
                        0 <= i < s@.len() ==> if rows_have(rows@, s@[i].key) {
                            exists|j: int| 0 <= j < rows@.len() && s@[i] == row_model(rows@[j])
                        } else {
                            s@[i] == fresh(s@[i].key)
                        }
                    &&& rows@.len() == 0 ==> forall|i: int|
                        0 <= i < s@.len() ==> #[trigger] s@[i] == fresh(s@[i].key)
                    &&& all_clean(texts(keys@)) ==> forall|k: Seq<char>|
                        has_key(s@, k) <==> texts(keys@).contains(k)
                },
            },
    {
        proof {
            if all_clean(texts(keys@)) {
                lemma_sanitized_clean(texts(keys@));
            }
        }
        let configured = sanitize_keys(keys);
        if configured.len() == 0 {
            return Err(ProxyError::EmptyKeySet);
        }
        let ghost row_seq = rows@;
        let mut store = KeyStore::from_rows(rows);
        let ghost loaded = store@;
        store.sync_keys(&configured);
        assert forall|i: int|
            #![trigger store@[i]]
            0 <= i < store@.len() implies if rows_have(row_seq, store@[i].key) {
                exists|j: int| 0 <= j < row_seq.len() && store@[i] == row_model(row_seq[j])
            } else {
                store@[i] == fresh(store@[i].key)
            } by {
            if rows_have(row_seq, store@[i].key) {
                assert(has_key(loaded, store@[i].key));
                assert(loaded.contains(store@[i]));
                let x = choose|x: int| 0 <= x < loaded.len() && loaded[x] == store@[i];
                assert(loaded[x] == store@[i]);
            } else {
                if has_key(loaded, store@[i].key) {
                    let x = choose|x: int| 0 <= x < loaded.len() && loaded[x].key == store@[i].key;
                    assert(loaded[x] == loaded[x]);
                }
            }
        }
        Ok(store)
    }

    /// Leases a key at `now` (see `acquire_key`), in the calendar month (UTC) that
    /// holds `now`.
    pub fn acquire_key_at(&mut self, now: i64) -> (r: Result<String, ProxyError>)
        requires
            old(self).wf(),
        ensures
            final(self).wf(),
            r is Err <==> old(self)@.len() == 0,
            match r {
                Ok(k) => leased(old(self)@, now, month_floor(now) as i64, k@) && final(self)@
                    == touch_all(reset_all(old(self)@, now, month_floor(now) as i64), k@, now),
                Err(e) => e == ProxyError::NoAvailableKeys && final(self)@ == old(self)@,
            },
    {
        let month_start = if MIN_CALENDAR_TIME <= now && now <= MAX_CALENDAR_TIME {
            start_of_month(now)
        } else {
            i64::MIN
        };
        self.acquire_key(now, month_start)
    }

    /// Leases a key at the current time (see `acquire_key_at`).
    pub fn acquire_lease(&mut self) -> (r: Result<String, ProxyError>)
        requires
            old(self).wf(),
        ensures
            final(self).wf(),
            r is Err <==> old(self)@.len() == 0,
            match r {
                Ok(k) => exists|now: i64|
                    leased(old(self)@, now, month_floor(now) as i64, k@) && final(self)@ == touch_all(
                        reset_all(old(self)@, now, month_floor(now) as i64),
                        k@,
                        now,
                    ),
                Err(e) => e == ProxyError::NoAvailableKeys && final(self)@ == old(self)@,
            },
    {
        let now = current_time();
        self.acquire_key_at(now)
    }

    /// Leases a key at `now` in a month that began at `month_start`: the monthly
    /// reset pass runs, the key is chosen (see `is_choice`) and stamped as used.
    pub fn acquire_key(&mut self, now: i64, month_start: i64) -> (r: Result<String, ProxyError>)
        requires
            old(self).wf(),
        ensures
            final(self).wf(),
            r is Err <==> old(self)@.len() == 0,
            match r {
                Ok(k) => leased(old(self)@, now, month_start, k@) && final(self)@ == touch_all(
                    reset_all(old(self)@, now, month_start),
                    k@,
                    now,
                ),
                Err(e) => e == ProxyError::NoAvailableKeys && final(self)@ == old(self)@,
            },
    {
        let ghost start = self@;
        self.reset_monthly(now, month_start);
        match self.select_index() {
            None => {
                assert(self@ =~= start);
                Err(ProxyError::NoAvailableKeys)
            },
            Some(i) => {
                let key = self.records[i].key.clone();
                assert(self@[i as int].key == key@);
                self.touch_key(key.as_str(), now);
                Ok(key)
            },
        }
    }
}

proof fn lemma_same_keys_unique(a: Seq<KeyModel>, b: Seq<KeyModel>)
    requires
        keys_unique(a),
        a.len() == b.len(),
        forall|j: int| 0 <= j < a.len() ==> a[j].key == b[j].key,
    ensures
        keys_unique(b),
{
    assert forall|i: int, j: int|
        0 <= i < b.len() && 0 <= j < b.len() && i != j implies b[i].key != b[j].key by {
        assert(a[i].key == b[i].key && a[j].key == b[j].key);
    }
}

/// One of the rows holds key `k`.
pub open spec fn rows_have(rows: Seq<StoredRow>, k: Seq<char>) -> bool {
    exists|j: int| 0 <= j < rows.len() && rows[j].key@ == k
}

/// One of the first `n` of `keys` is `k`.
pub open spec fn among(keys: Seq<String>, n: int, k: Seq<char>) -> bool {
    exists|j: int| 0 <= j < n && keys[j]@ == k
}

/// Whether one of `keys` is `key`.
fn contains_text(keys: &Vec<String>, key: &str) -> (r: bool)
    ensures
        r == texts(keys@).contains(key@),
{
    let mut i: usize = 0;
    while i < keys.len()
        invariant
            i <= keys@.len(),
            forall|j: int| 0 <= j < i ==> keys@[j]@ != key@,
        decreases keys@.len() - i,
    {
        if str_eq(keys[i].as_str(), key) {
            assert(texts(keys@)[i as int] == key@);
            return true;
        }
        i += 1;
    }
    assert forall|j: int| 0 <= j < texts(keys@).len() implies texts(keys@)[j] != key@ by {
        assert(keys@[j]@ != key@);
    }
    false
}

} // verus!
