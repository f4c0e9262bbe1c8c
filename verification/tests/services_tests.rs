use moose_core::episodic::{EpisodicMemory, IMPORTANCE_UNIT};
use moose_core::router::InferenceRouter;
use moose_core::workspace::SharedWorkspace;

#[test]
fn episodic_store_and_search_case_insensitive() {
    let mut em = EpisodicMemory::new();
    let id = em.store(
        "The Quick Brown Fox".to_string(),
        "fact".to_string(),
        None,
        None,
        1000,
    );
    assert_eq!(id.len(), 12);
    em.store("unrelated".to_string(), "fact".to_string(), None, None, 1000);
    let hits = em.search(&"quick brown".to_string(), 10);
    assert_eq!(hits.len(), 1);
    assert_eq!(hits[0].content, "The Quick Brown Fox");
    assert_eq!(hits[0].importance_micros, IMPORTANCE_UNIT);
    let none = em.search(&"absent".to_string(), 10);
    assert!(none.is_empty());
}

#[test]
fn episodic_search_orders_by_importance() {
    let mut em = EpisodicMemory::new();
    em.store("match one".to_string(), "f".to_string(), None, Some(100), 0);
    em.store("match two".to_string(), "f".to_string(), None, Some(900), 0);
    em.store("match three".to_string(), "f".to_string(), None, Some(900), 0);
    let hits = em.search(&"match".to_string(), 2);
    assert_eq!(hits.len(), 2);
    assert_eq!(hits[0].content, "match two");
    assert_eq!(hits[1].content, "match three");
}

#[test]
fn episodic_decay_is_exact_fixed_point() {
    let mut em = EpisodicMemory::new();
    em.store("x".to_string(), "f".to_string(), None, None, 0);
    // the default decay is five percent
    let changed = em.decay_importance(None);
    assert_eq!(changed, 1);
    assert_eq!(em.entries[0].importance_micros, 950000);
    let changed = em.decay_importance(Some(500000));
    assert_eq!(changed, 1);
    assert_eq!(em.entries[0].importance_micros, 475000);
}

#[test]
fn episodic_eviction_rule() {
    let mut em = EpisodicMemory::new();
    // old and unimportant: goes
    em.store("old-dim".to_string(), "f".to_string(), None, Some(1000), 0);
    // old but important: stays
    em.store("old-bright".to_string(), "f".to_string(), None, None, 0);
    // new and unimportant: stays (too young)
    let now: u64 = 100 * 86400000;
    em.store("new-dim".to_string(), "f".to_string(), None, Some(1000), now - 1000);
    let removed = em.evict_low_importance(None, None, now);
    assert_eq!(removed, 1);
    assert_eq!(em.count(), 2);
    assert_eq!(em.entries[0].content, "old-bright");
    assert_eq!(em.entries[1].content, "new-dim");
}

#[test]
fn workspace_append_and_query() {
    let mut ws = SharedWorkspace::new();
    let id = ws.add(
        "m1".to_string(),
        "alice".to_string(),
        "note".to_string(),
        "Plan".to_string(),
        "step one".to_string(),
    );
    assert_eq!(id.len(), 12);
    ws.add(
        "m1".to_string(),
        "bob".to_string(),
        "result".to_string(),
        "Out".to_string(),
        "step two".to_string(),
    );
    ws.add(
        "m2".to_string(),
        "alice".to_string(),
        "note".to_string(),
        "Other".to_string(),
        "elsewhere".to_string(),
    );
    let all_m1 = ws.query(&"m1".to_string(), None, None);
    assert_eq!(all_m1.len(), 2);
    assert_eq!(all_m1[0].title, "Plan");
    assert_eq!(all_m1[1].title, "Out");
    let alice = ws.query(&"m1".to_string(), Some(&"alice".to_string()), None);
    assert_eq!(alice.len(), 1);
    let results = ws.query(&"m1".to_string(), None, Some(&"result".to_string()));
    assert_eq!(results.len(), 1);
    assert_eq!(results[0].agent_id, "bob");
    let both = ws.query(&"m1".to_string(), Some(&"bob".to_string()), Some(&"note".to_string()));
    assert!(both.is_empty());
}

#[test]
fn workspace_summary_rendering() {
    let mut ws = SharedWorkspace::new();
    assert_eq!(
        ws.get_mission_summary(&"m1".to_string()),
        "No entries for mission m1"
    );
    ws.add(
        "m1".to_string(),
        "alice".to_string(),
        "note".to_string(),
        "Plan".to_string(),
        "step one".to_string(),
    );
    let s = ws.get_mission_summary(&"m1".to_string());
    assert_eq!(s, "=== Mission m1 Summary ===\n\n### Plan (alice)\nstep one\n\n");
}

#[test]
fn workspace_clear_mission() {
    let mut ws = SharedWorkspace::new();
    ws.add("m1".to_string(), "a".to_string(), "t".to_string(), "x".to_string(), "1".to_string());
    ws.add("m2".to_string(), "a".to_string(), "t".to_string(), "y".to_string(), "2".to_string());
    ws.add("m1".to_string(), "a".to_string(), "t".to_string(), "z".to_string(), "3".to_string());
    let removed = ws.clear_mission(&"m1".to_string());
    assert_eq!(removed, 2);
    assert_eq!(ws.count(), 1);
    ws.clear();
    assert_eq!(ws.count(), 0);
}

#[test]
fn router_resolution() {
    let mut router = InferenceRouter::new();
    // nothing configured: resolution fails
    assert!(router.resolve(&"gpt".to_string()).is_err());
    router.add_backend(
        "local".to_string(),
        "http://localhost:8080".to_string(),
        None,
    );
    router.add_backend(
        "cloud".to_string(),
        "https://api.example.test".to_string(),
        Some("SECRET-REDACTED".to_string()),
    );
    router.add_model_mapping("gpt".to_string(), "cloud".to_string(), "gpt-xl".to_string());
    // a mapped alias goes to its backend and model id
    let t = router.resolve(&"gpt".to_string()).unwrap();
    assert_eq!(t.base_url, "https://api.example.test");
    assert_eq!(t.model_id, "gpt-xl");
    assert!(t.api_key.is_some());
    // an unmapped alias passes through to the first backend
    let t = router.resolve(&"mystery".to_string()).unwrap();
    assert_eq!(t.base_url, "http://localhost:8080");
    assert_eq!(t.model_id, "mystery");
    assert!(t.api_key.is_none());
    // a mapping naming a missing backend fails
    router.add_model_mapping("bad".to_string(), "gone".to_string(), "m".to_string());
    let e = router.resolve(&"bad".to_string());
    assert!(e.is_err());
    assert_eq!(e.err().unwrap().message(), "Backend not found: gone");
}

#[test]
fn router_tables() {
    let mut router = InferenceRouter::new();
    router.add_backend("one".to_string(), "u1".to_string(), None);
    router.add_backend("two".to_string(), "u2".to_string(), None);
    // re-registering replaces in place
    router.add_backend("one".to_string(), "u1b".to_string(), None);
    assert_eq!(router.list_backends(), vec!["one".to_string(), "two".to_string()]);
    assert_eq!(router.backends[0].base_url, "u1b");
    router.add_model_mapping("a".to_string(), "one".to_string(), "m1".to_string());
    router.add_model_mapping("a".to_string(), "two".to_string(), "m2".to_string());
    let map = router.get_model_mapping();
    assert_eq!(map.len(), 1);
    assert_eq!(map[0].backend_name, "two");
}

#[test]
fn message_normalisation_defaults() {
    let m = InferenceRouter::normalize_message(None, None);
    assert_eq!(m.role, "user");
    assert_eq!(m.content, "");
    let m = InferenceRouter::normalize_message(
        Some("assistant".to_string()),
        Some("hi".to_string()),
    );
    assert_eq!(m.role, "assistant");
    assert_eq!(m.content, "hi");
}
