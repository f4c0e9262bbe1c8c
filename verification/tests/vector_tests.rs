use moose_core::tags;
use moose_core::vector::{MemoryEntry, VectorMemory, VectorMemoryError, MAX_MEMORY_ENTRIES};

fn entry(text: &str, bits: Vec<u32>, tags: &str, from: u64, to: u64) -> MemoryEntry {
    MemoryEntry {
        text: text.to_string(),
        vector: bits,
        tags: tags.to_string(),
        timestamp_ms: 1000,
        source: "internal".to_string(),
        temporal_type: String::new(),
        valid_from_ms: from,
        valid_to_ms: to,
        entity_type: String::new(),
        entity_id: String::new(),
    }
}

fn basis(dim: usize, one_at: usize) -> Vec<u32> {
    let mut v = vec![0.0f32; dim];
    v[one_at] = 1.0;
    v.iter().map(|x| x.to_bits()).collect()
}

fn dot(a: &[u32], b: &[u32]) -> f32 {
    a.iter().zip(b.iter()).map(|(x, y)| f32::from_bits(*x) * f32::from_bits(*y)).sum()
}

#[test]
fn store_and_count() {
    let mut vm = VectorMemory::new();
    let idx = vm.store(entry("one", basis(3, 0), "", 0, 0)).unwrap();
    assert_eq!(idx, 0);
    let idx = vm.store(entry("two", basis(3, 1), "", 0, 0)).unwrap();
    assert_eq!(idx, 1);
    assert_eq!(vm.count(), 2);
}

#[test]
fn cap_evicts_the_oldest() {
    let mut vm = VectorMemory::new();
    for i in 0..MAX_MEMORY_ENTRIES {
        let text = format!("e{}", i);
        vm.store(entry(&text, vec![1], "", 0, 0)).unwrap();
    }
    assert_eq!(vm.count(), MAX_MEMORY_ENTRIES);
    assert_eq!(vm.entries[0].text, "e0");
    let idx = vm.store(entry("last", vec![1], "", 0, 0)).unwrap();
    assert_eq!(vm.count(), MAX_MEMORY_ENTRIES);
    assert_eq!(idx, MAX_MEMORY_ENTRIES - 1);
    assert_eq!(vm.entries[0].text, "e1");
    assert_eq!(vm.entries[MAX_MEMORY_ENTRIES - 1].text, "last");
}

#[test]
fn invalid_tags_rejected() {
    let mut vm = VectorMemory::new();
    let e = vm.store(entry("x", vec![1], "bad tag!", 0, 0));
    assert!(matches!(e, Err(VectorMemoryError::InvalidTag(_))));
    assert_eq!(vm.count(), 0);
    // twenty-one tags are too many
    let many = vec!["t"; 21].join(",");
    let e = vm.store(entry("x", vec![1], &many, 0, 0));
    assert!(matches!(e, Err(VectorMemoryError::InvalidTag(_))));
    // twenty are fine, with spaces around them
    let twenty = vec![" t "; 20].join(",");
    assert!(vm.store(entry("x", vec![1], &twenty, 0, 0)).is_ok());
}

#[test]
fn dimension_must_match() {
    let mut vm = VectorMemory::new();
    vm.store(entry("x", vec![1, 2], "", 0, 0)).unwrap();
    let e = vm.store(entry("y", vec![1, 2, 3], "", 0, 0));
    assert!(matches!(e, Err(VectorMemoryError::EmbeddingApiError(_))));
}

#[test]
fn temporal_filter_current_keeps_unbounded() {
    let mut vm = VectorMemory::new();
    vm.store(entry("always", vec![1], "", 0, 0)).unwrap();
    let keys = vec![0i64];
    let r = vm.search_select(&keys, &"current".to_string(), 5000, 10);
    assert_eq!(r, vec![0usize]);
}

#[test]
fn temporal_filter_current_and_historical_windows() {
    let mut vm = VectorMemory::new();
    vm.store(entry("past", vec![1], "", 10, 20)).unwrap();
    vm.store(entry("now", vec![1], "", 10, 9000)).unwrap();
    vm.store(entry("later", vec![1], "", 8000, 9000)).unwrap();
    let keys = vec![0i64, 0, 0];
    let now = 5000u64;
    let current = vm.search_select(&keys, &"current".to_string(), now, 10);
    assert_eq!(current, vec![1usize]);
    let historical = vm.search_select(&keys, &"historical".to_string(), now, 10);
    assert_eq!(historical, vec![0usize]);
    let all = vm.search_select(&keys, &"anything".to_string(), now, 10);
    assert_eq!(all, vec![0usize, 1, 2]);
}

#[test]
fn vector_recall_basis_vectors() {
    let mut vm = VectorMemory::new();
    vm.store(entry("first", basis(3, 0), "", 0, 0)).unwrap();
    vm.store(entry("second", basis(3, 1), "", 0, 0)).unwrap();
    vm.store(entry("third", basis(3, 2), "", 0, 0)).unwrap();
    // the query is the first basis vector; similarities are 1, 0, 0
    let q = basis(3, 0);
    let keys: Vec<i64> = vm.entries.iter().map(|e| dot(&e.vector, &q).to_bits() as i64).collect();
    let r = vm.search_select(&keys, &String::new(), 0, 2);
    assert_eq!(r.len(), 2);
    assert_eq!(r[0], 0);
    assert!(r[1] == 1 || r[1] == 2);
    assert_eq!(dot(&vm.entries[r[0]].vector, &q), 1.0);
    assert_eq!(dot(&vm.entries[r[1]].vector, &q), 0.0);
}

#[test]
fn selection_is_stable_on_ties() {
    let mut vm = VectorMemory::new();
    for i in 0..4 {
        let text = format!("e{}", i);
        vm.store(entry(&text, vec![1], "", 0, 0)).unwrap();
    }
    let keys = vec![5i64, 9, 9, 5];
    let r = vm.search_select(&keys, &String::new(), 0, 4);
    assert_eq!(r, vec![1usize, 2, 0, 3]);
}

#[test]
fn tags_parse_and_validate() {
    assert!(tags::validate_tags(b""));
    assert!(tags::validate_tags(b"alpha,beta-2,under_score"));
    assert!(tags::validate_tags(b" spaced , ok "));
    assert!(!tags::validate_tags(b"has space inside"));
    assert!(!tags::validate_tags(b"a,,b"));
    assert!(!tags::validate_tags(b"exclaim!"));
    let pieces = tags::parse_tags(b" a , b ");
    assert_eq!(pieces, vec![b"a".to_vec(), b"b".to_vec()]);
}

#[test]
fn tag_round_trip_concrete() {
    // joining parsed tags and parsing again yields the same list
    let parsed = tags::parse_tags(b"alpha, beta ,gamma");
    let joined: Vec<u8> = parsed.join(&b","[..]);
    let reparsed = tags::parse_tags(&joined);
    assert_eq!(parsed, reparsed);
}

#[test]
fn clear_empties_the_store() {
    let mut vm = VectorMemory::new();
    vm.store(entry("x", vec![1], "", 0, 0)).unwrap();
    vm.clear();
    assert_eq!(vm.count(), 0);
}
