use moose_core::stream::{
    finish_reason_of, reorder_by_index, LineAssembler, SseEvent, StreamAccumulator,
};

#[test]
fn line_assembler_splits_and_buffers() {
    let mut la = LineAssembler::new();
    let lines = la.push_chunk(b"data: {\"a\":1}\nda");
    assert_eq!(lines.len(), 1);
    assert_eq!(lines[0], b"data: {\"a\":1}".to_vec());
    // the partial line waits for the next chunk
    let lines = la.push_chunk(b"ta: [DONE]\n\n");
    assert_eq!(lines.len(), 2);
    assert_eq!(lines[0], b"data: [DONE]".to_vec());
    assert_eq!(lines[1], b"".to_vec());
}

#[test]
fn sse_classification() {
    assert!(matches!(
        moose_core::stream::classify_sse_line(b"data: [DONE]"),
        SseEvent::Done
    ));
    match moose_core::stream::classify_sse_line(b"  data: {\"x\":2}  ") {
        SseEvent::Data(p) => assert_eq!(p, b"{\"x\":2}".to_vec()),
        _ => panic!("expected a data event"),
    }
    assert!(matches!(moose_core::stream::classify_sse_line(b""), SseEvent::Skip));
    assert!(matches!(
        moose_core::stream::classify_sse_line(b": a comment"),
        SseEvent::Skip
    ));
}

#[test]
fn accumulator_never_emits_empty_tokens() {
    let mut acc = StreamAccumulator::new();
    assert!(acc.feed("Hel"));
    assert!(!acc.feed(""));
    assert!(acc.feed("lo"));
    assert_eq!(acc.content, "Hello");
}

#[test]
fn finish_reason_synthesis() {
    assert_eq!(finish_reason_of(true), Some("stop".to_string()));
    assert_eq!(finish_reason_of(false), None);
}

#[test]
fn embedding_reorder_by_index() {
    let va = vec![1.0f32, 0.0];
    let vb = vec![0.0f32, 1.0];
    let vc = vec![0.5f32, 0.5];
    // the server answered for ["a", "b", "c"] with indices [2, 0, 1]
    let items = vec![(2usize, vc.clone()), (0usize, va.clone()), (1usize, vb.clone())];
    let r = reorder_by_index(items).unwrap();
    assert_eq!(r, vec![va, vb, vc]);
}

#[test]
fn embedding_reorder_rejects_bad_indices() {
    // a duplicate index
    let items = vec![(0usize, 1u8), (0usize, 2u8)];
    assert!(reorder_by_index(items).is_none());
    // an index out of range
    let items = vec![(0usize, 1u8), (2usize, 2u8)];
    assert!(reorder_by_index(items).is_none());
    // the empty response reorders to the empty list
    let items: Vec<(usize, u8)> = Vec::new();
    assert_eq!(reorder_by_index(items), Some(Vec::new()));
}

#[test]
fn no_bytes_are_lost_across_chunks() {
    let mut la = LineAssembler::new();
    let mut all_lines: Vec<Vec<u8>> = Vec::new();
    for chunk in [&b"ab"[..], &b"c\nde"[..], &b"\n\nf"[..]] {
        all_lines.extend(la.push_chunk(chunk));
    }
    assert_eq!(all_lines, vec![b"abc".to_vec(), b"de".to_vec(), b"".to_vec()]);
    assert_eq!(la.buffer, b"f".to_vec());
}
