use moose_core::jsonl::{decode_entries, decode_entry, encode_entries, encode_entry};
use moose_core::vector::MemoryEntry;

fn entry(text: &str, bits: Vec<u32>, tags: &str) -> MemoryEntry {
    MemoryEntry {
        text: text.to_string(),
        vector: bits,
        tags: tags.to_string(),
        timestamp_ms: 1700000000123,
        source: "internal".to_string(),
        temporal_type: "fact".to_string(),
        valid_from_ms: 0,
        valid_to_ms: 42,
        entity_type: String::new(),
        entity_id: "abc123".to_string(),
    }
}

fn assert_same(a: &MemoryEntry, b: &MemoryEntry) {
    assert_eq!(a.text, b.text);
    assert_eq!(a.vector, b.vector);
    assert_eq!(a.tags, b.tags);
    assert_eq!(a.timestamp_ms, b.timestamp_ms);
    assert_eq!(a.source, b.source);
    assert_eq!(a.temporal_type, b.temporal_type);
    assert_eq!(a.valid_from_ms, b.valid_from_ms);
    assert_eq!(a.valid_to_ms, b.valid_to_ms);
    assert_eq!(a.entity_type, b.entity_type);
    assert_eq!(a.entity_id, b.entity_id);
}

#[test]
fn load_of_save_yields_the_entries_back() {
    let quoted = "line with \"quotes\", commas, a \\ backslash\nand a newline";
    let entries = vec![
        entry("plain text", vec![1.0f32.to_bits(), 0.5f32.to_bits()], "alpha,beta"),
        entry(quoted, vec![0, u32::MAX], ""),
        entry("", vec![], "t"),
    ];
    let lines = encode_entries(&entries);
    assert_eq!(lines.len(), 3);
    let back = decode_entries(&lines);
    assert_eq!(back.len(), entries.len());
    for (a, b) in entries.iter().zip(back.iter()) {
        assert_same(a, b);
    }
}

#[test]
fn each_line_is_one_json_object() {
    let e = entry("hi", vec![7], "t");
    let line = encode_entry(&e);
    let s = String::from_utf8(line).unwrap();
    assert!(s.starts_with("{\"text\":["));
    assert!(s.ends_with("]}"));
    assert!(s.contains("\"vector\":["));
    assert!(s.contains("\"timestamp_ms\":\"00000001700000000123\""));
    assert!(!s.contains('\n'));
}

#[test]
fn bad_lines_are_skipped() {
    assert!(decode_entry(b"").is_none());
    assert!(decode_entry(b"junk").is_none());
    assert!(decode_entry(b"{\"text\":[").is_none());
    let mut lines = encode_entries(&vec![entry("keep", vec![3], "")]);
    lines.insert(0, b"not a record".to_vec());
    lines.push(Vec::new());
    let back = decode_entries(&lines);
    assert_eq!(back.len(), 1);
    assert_eq!(back[0].text, "keep");
}

#[test]
fn truncated_or_altered_lines_do_not_parse() {
    let e = entry("abc", vec![1, 2], "t");
    let mut line = encode_entry(&e);
    line.pop();
    assert!(decode_entry(&line).is_none());
    let line2 = encode_entry(&e);
    let mut extended = line2.clone();
    extended.push(b' ');
    assert!(decode_entry(&extended).is_none());
}
