use url_shortener::{RequestCounter, Store, StoreError};

fn count_in(snapshot: &[(String, u64)], name: &str) -> Option<u64> {
    snapshot
        .iter()
        .find(|(n, _)| n == name)
        .map(|(_, c)| *c)
}

#[test]
fn open() {
    let mut store = Store::new();
    let id = store.insert(String::from("https://github.com/SergioBenitez/Rocket"));

    let url = store.lookup(id).expect("fresh id must resolve");
    assert_eq!(url, "https://github.com/SergioBenitez/Rocket");

    let other = id.wrapping_add(1);
    assert_ne!(other, id);
    assert_eq!(store.lookup(other), Err(StoreError::NotFound));
}

#[test]
fn invalid_id() {
    let store = Store::new();
    assert_eq!(store.lookup(123), Err(StoreError::NotFound));
}

#[test]
fn unique_ids() {
    let mut store = Store::new();
    let mut ids = Vec::new();
    for i in 0..100u32 {
        let url = format!("https://example.com/page/{}", i);
        ids.push(store.insert(url));
    }
    for a in 0..ids.len() {
        for b in (a + 1)..ids.len() {
            assert_ne!(ids[a], ids[b]);
        }
    }
    assert_eq!(store.len(), 100);
}

#[test]
fn round_trip() {
    // The store does not normalize: the caller hands it URLs already in
    // normal form, and lookup returns the stored string verbatim.
    let mut store = Store::new();
    let id = store.insert(String::from("https://example.com/"));
    assert_eq!(store.lookup(id), Ok(String::from("https://example.com/")));
}

#[test]
fn duplicate_urls_get_distinct_ids() {
    let mut store = Store::new();
    let a = store.insert(String::from("https://example.com/"));
    let b = store.insert(String::from("https://example.com/"));
    assert_ne!(a, b);
    assert_eq!(store.lookup(a), Ok(String::from("https://example.com/")));
    assert_eq!(store.lookup(b), Ok(String::from("https://example.com/")));
    assert_eq!(store.len(), 2);
}

#[test]
fn empty_url_round_trips() {
    let mut store = Store::new();
    let id = store.insert(String::new());
    assert_eq!(store.lookup(id), Ok(String::new()));
}

#[test]
fn counter_counts_every_call() {
    let mut counter = RequestCounter::new();
    for _ in 0..1000 {
        counter.add(String::from("x"));
    }
    assert_eq!(counter.get(&String::from("x")), Some(1000));
    let snapshot = counter.all();
    assert_eq!(count_in(&snapshot, "x"), Some(1000));
}

#[test]
fn counter_isolation() {
    let mut counter = RequestCounter::new();
    counter.add(String::from("shorten"));
    counter.add(String::from("open"));
    counter.add(String::from("shorten"));
    counter.add(String::from("shorten"));

    let snapshot = counter.all();
    assert_eq!(count_in(&snapshot, "shorten"), Some(3));
    assert_eq!(count_in(&snapshot, "open"), Some(1));
    // A name never reported is absent, not present with count zero.
    assert_eq!(count_in(&snapshot, "counters"), None);
    assert_eq!(counter.get(&String::from("counters")), None);
    assert_eq!(snapshot.len(), 2);
}

#[test]
fn counter_starts_empty() {
    let counter = RequestCounter::new();
    assert!(counter.all().is_empty());
    assert_eq!(counter.get(&String::from("shorten")), None);
}

#[test]
fn snapshot_is_a_copy() {
    let mut counter = RequestCounter::new();
    counter.add(String::from("open"));
    let before = counter.all();
    counter.add(String::from("open"));
    // The earlier snapshot is unaffected by later reports.
    assert_eq!(count_in(&before, "open"), Some(1));
    assert_eq!(count_in(&counter.all(), "open"), Some(2));
}

#[test]
fn mixed_workload() {
    let mut store = Store::new();
    let mut counter = RequestCounter::new();
    let mut inserted: Vec<(u64, String)> = Vec::new();

    for i in 0..50u32 {
        let url = format!("https://example.com/item/{}", i);
        let id = store.insert(url.clone());
        counter.add(String::from("shorten"));
        inserted.push((id, url));
        if i % 3 == 0 {
            let (probe_id, probe_url) = &inserted[(i as usize) / 2];
            assert_eq!(store.lookup(*probe_id), Ok(probe_url.clone()));
            counter.add(String::from("open"));
        }
    }

    // Every identifier ever returned still resolves to its original URL.
    for (id, url) in &inserted {
        assert_eq!(store.lookup(*id), Ok(url.clone()));
    }
    // The entry count equals the number of insertions, and the counter saw
    // every reported operation.
    assert_eq!(store.len(), 50);
    let snapshot = counter.all();
    assert_eq!(count_in(&snapshot, "shorten"), Some(50));
    assert_eq!(count_in(&snapshot, "open"), Some(17));
}
