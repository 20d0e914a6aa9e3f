use tavily_hikari::error::ProxyError;
use tavily_hikari::store::{normalize_row, sanitize_keys, KeyStatus, KeyStore, StoredRow};

fn keys(list: &[&str]) -> Vec<String> {
    list.iter().map(|k| k.to_string()).collect()
}

fn row(key: &str, status: Option<&str>, changed: Option<i64>, last_used: i64) -> StoredRow {
    StoredRow {
        key: key.to_string(),
        status: status.map(|s| s.to_string()),
        status_changed_at: changed,
        last_used_at: last_used,
    }
}

fn find<'a>(store: &'a KeyStore, key: &str) -> &'a tavily_hikari::store::ApiKeyRecord {
    store.records().iter().find(|r| r.key == key).expect("key present")
}

fn sorted_keys(store: &KeyStore) -> Vec<String> {
    let mut ks: Vec<String> = store.records().iter().map(|r| r.key.clone()).collect();
    ks.sort();
    ks
}

#[test]
fn initialize_fresh_store_holds_exactly_the_keys() {
    let store = KeyStore::initialize(vec![], &keys(&[" k1 ", "k2", "", "k1"])).unwrap();
    assert_eq!(sorted_keys(&store), keys(&["k1", "k2"]));
    for r in store.records() {
        assert_eq!(r.status, KeyStatus::Active);
        assert_eq!(r.status_changed_at, None);
        assert_eq!(r.last_used_at, 0);
    }
}

#[test]
fn initialize_with_no_keys_fails() {
    assert!(matches!(KeyStore::initialize(vec![], &keys(&[])), Err(ProxyError::EmptyKeySet)));
    assert!(matches!(
        KeyStore::initialize(vec![row("a", Some("active"), None, 0)], &keys(&["  ", ""])),
        Err(ProxyError::EmptyKeySet)
    ));
}

#[test]
fn initialize_keeps_known_keys_and_drops_others() {
    let rows = vec![
        row("a", Some("exhausted"), Some(50), 70),
        row("gone", Some("active"), None, 5),
    ];
    let store = KeyStore::initialize(rows, &keys(&["a", "b"])).unwrap();
    assert_eq!(sorted_keys(&store), keys(&["a", "b"]));
    let a = find(&store, "a");
    assert_eq!(a.status, KeyStatus::Exhausted);
    assert_eq!(a.status_changed_at, Some(50));
    assert_eq!(a.last_used_at, 70);
    let b = find(&store, "b");
    assert_eq!(b.status, KeyStatus::Active);
    assert_eq!(b.status_changed_at, None);
}

#[test]
fn legacy_rows_are_migrated() {
    assert_eq!(normalize_row(&row("a", None, Some(123), 0)).status, KeyStatus::Exhausted);
    assert_eq!(normalize_row(&row("a", Some("active"), Some(9), 0)).status, KeyStatus::Active);
    assert_eq!(normalize_row(&row("a", Some(""), Some(9), 0)).status, KeyStatus::Exhausted);
    assert_eq!(normalize_row(&row("a", Some(""), None, 0)).status, KeyStatus::Active);
    assert_eq!(normalize_row(&row("a", None, Some(0), 0)).status, KeyStatus::Active);
    assert_eq!(normalize_row(&row("a", Some("exhausted"), None, 0)).status, KeyStatus::Exhausted);
    assert_eq!(normalize_row(&row("a", Some("active"), None, 0)).status, KeyStatus::Active);
}

#[test]
fn reset_key_stays_active_when_read_back() {
    let rows = vec![row("a", Some("exhausted"), Some(100), 0)];
    let mut store = KeyStore::from_rows(rows);
    store.reset_monthly(1000, 200);
    let r = find(&store, "a");
    let reread = KeyStore::from_rows(vec![row(
        "a",
        Some(r.status.as_str()),
        r.status_changed_at,
        r.last_used_at,
    )]);
    assert_eq!(reread.records()[0].status, KeyStatus::Active);
    assert_eq!(reread.records()[0].status_changed_at, Some(1000));
}

#[test]
fn duplicate_rows_keep_the_first() {
    let store = KeyStore::from_rows(vec![row("a", None, None, 1), row("a", None, None, 2)]);
    assert_eq!(store.records().len(), 1);
    assert_eq!(store.records()[0].last_used_at, 1);
}

#[test]
fn sanitize_trims_and_drops_blank() {
    assert_eq!(sanitize_keys(&keys(&["\t x \n", "   ", "y"])), keys(&["x", "y"]));
}

#[test]
fn lease_picks_least_recently_used() {
    let rows = vec![
        row("a", Some("active"), None, 30),
        row("b", Some("active"), None, 10),
        row("c", Some("active"), None, 20),
    ];
    let mut store = KeyStore::initialize(rows, &keys(&["a", "b", "c"])).unwrap();
    let k = store.acquire_key(100, 0).unwrap();
    assert_eq!(k, "b");
    assert_eq!(find(&store, "b").last_used_at, 100);
    let k = store.acquire_key(101, 0).unwrap();
    assert_eq!(k, "c");
    let k = store.acquire_key(102, 0).unwrap();
    assert_eq!(k, "a");
    let k = store.acquire_key(103, 0).unwrap();
    assert_eq!(k, "b");
}

#[test]
fn lease_ties_break_by_key() {
    let mut store = KeyStore::initialize(vec![], &keys(&["zeta", "alpha", "mid"])).unwrap();
    assert_eq!(store.acquire_key(1, 0).unwrap(), "alpha");
    assert_eq!(store.acquire_key(2, 0).unwrap(), "mid");
    assert_eq!(store.acquire_key(3, 0).unwrap(), "zeta");
}

#[test]
fn lease_skips_exhausted_while_an_active_key_exists() {
    let rows = vec![
        row("a", Some("exhausted"), Some(500), 0),
        row("b", Some("active"), None, 900),
    ];
    let mut store = KeyStore::initialize(rows, &keys(&["a", "b"])).unwrap();
    assert_eq!(store.acquire_key(1000, 400).unwrap(), "b");
}

#[test]
fn fallback_picks_longest_exhausted_nulls_first() {
    let rows = vec![
        row("a", Some("exhausted"), Some(100), 0),
        row("b", Some("exhausted"), None, 0),
        row("c", Some("exhausted"), Some(50), 0),
    ];
    let mut store = KeyStore::from_rows(rows);
    assert_eq!(store.acquire_key(1000, 10).unwrap(), "b");
    assert_eq!(find(&store, "b").last_used_at, 1000);
    assert_eq!(find(&store, "b").status, KeyStatus::Exhausted);
}

#[test]
fn fallback_picks_earliest_change() {
    let rows = vec![
        row("a", Some("exhausted"), Some(100), 0),
        row("c", Some("exhausted"), Some(50), 0),
    ];
    let mut store = KeyStore::from_rows(rows);
    assert_eq!(store.acquire_key(1000, 10).unwrap(), "c");
}

#[test]
fn monthly_reset_reactivates_before_selection() {
    let rows = vec![
        row("a", Some("exhausted"), Some(100), 0),
        row("b", Some("active"), None, 50),
    ];
    let mut store = KeyStore::from_rows(rows);
    assert_eq!(store.acquire_key(1000, 200).unwrap(), "a");
    let a = find(&store, "a");
    assert_eq!(a.status, KeyStatus::Active);
    assert_eq!(a.status_changed_at, Some(1000));
    assert_eq!(a.last_used_at, 1000);
}

#[test]
fn mark_exhausted_then_reset_in_same_month_keeps_it() {
    let mut store = KeyStore::initialize(vec![], &keys(&["a", "b"])).unwrap();
    store.mark_quota_exhausted("a", 500);
    let a = find(&store, "a");
    assert_eq!(a.status, KeyStatus::Exhausted);
    assert_eq!(a.status_changed_at, Some(500));
    assert_eq!(a.last_used_at, 500);
    store.reset_monthly(600, 400);
    assert_eq!(find(&store, "a").status, KeyStatus::Exhausted);
    assert_eq!(find(&store, "a").status_changed_at, Some(500));
    store.reset_monthly(700, 501);
    assert_eq!(find(&store, "a").status, KeyStatus::Active);
    assert_eq!(find(&store, "a").status_changed_at, Some(700));
}

#[test]
fn mark_exhausted_twice_refreshes_times() {
    let mut store = KeyStore::initialize(vec![], &keys(&["a"])).unwrap();
    store.mark_quota_exhausted("a", 10);
    store.mark_quota_exhausted("a", 20);
    assert_eq!(find(&store, "a").status_changed_at, Some(20));
    assert_eq!(find(&store, "a").last_used_at, 20);
}

#[test]
fn empty_store_has_no_keys_to_lease() {
    let mut store = KeyStore::from_rows(vec![]);
    assert!(matches!(store.acquire_key(1, 0), Err(ProxyError::NoAvailableKeys)));
    assert!(matches!(store.acquire_lease(), Err(ProxyError::NoAvailableKeys)));
}

#[test]
fn lease_with_the_clock() {
    let mut store = KeyStore::initialize(vec![], &keys(&["a"])).unwrap();
    assert_eq!(store.acquire_lease().unwrap(), "a");
    assert!(find(&store, "a").last_used_at > 0);
}

#[test]
fn month_start_comes_from_the_calendar() {
    // 1_700_000_000 is 2023-11-14T22:13:20Z; that month began at 1_698_796_800.
    let rows = vec![
        row("before", Some("exhausted"), Some(1_698_796_799), 0),
        row("within", Some("exhausted"), Some(1_698_796_800), 0),
    ];
    let mut store = KeyStore::from_rows(rows);
    assert_eq!(store.acquire_key_at(1_700_000_000).unwrap(), "before");
    assert_eq!(find(&store, "before").status, KeyStatus::Active);
    assert_eq!(find(&store, "before").status_changed_at, Some(1_700_000_000));
    assert_eq!(find(&store, "within").status, KeyStatus::Exhausted);
}

#[test]
fn month_start_on_leap_day_and_before_epoch() {
    // 2024-02-29T00:00:00Z; the month began 2024-02-01T00:00:00Z (1_706_745_600).
    let rows = vec![
        row("a", Some("exhausted"), Some(1_706_745_599), 0),
        row("b", Some("exhausted"), Some(1_706_745_600), 0),
    ];
    let mut store = KeyStore::from_rows(rows);
    assert_eq!(store.acquire_key_at(1_709_164_800).unwrap(), "a");
    assert_eq!(find(&store, "b").status, KeyStatus::Exhausted);
    // 1969-12-31T23:59:59Z; the month began 1969-12-01T00:00:00Z (-2_678_400).
    let rows = vec![
        row("c", Some("exhausted"), Some(-2_678_401), 0),
        row("d", Some("exhausted"), Some(-2_678_400), 0),
    ];
    let mut store = KeyStore::from_rows(rows);
    assert_eq!(store.acquire_key_at(-1).unwrap(), "c");
    assert_eq!(find(&store, "c").status, KeyStatus::Active);
    assert_eq!(find(&store, "d").status, KeyStatus::Exhausted);
}
