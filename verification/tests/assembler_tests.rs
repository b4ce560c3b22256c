use lanshare::assembler::{split_payload, FrameAssembler};
use lanshare::protocol::VideoChunk;

fn payload_of_len(len: usize) -> Vec<u8> {
    (0..len).map(|i| (i % 251) as u8).collect()
}

#[test]
fn split_small_payload_single_chunk() {
    let payload = payload_of_len(100);
    let chunks = split_payload(&payload, 7, false);
    assert_eq!(chunks.len(), 1);
    assert_eq!(chunks[0].frame_id, 7);
    assert_eq!(chunks[0].chunk_idx, 0);
    assert_eq!(chunks[0].total_chunks, 1);
    assert_eq!(chunks[0].payload, payload);
}

#[test]
fn fragmented_frame_scenario() {
    // A 9000-byte encoded frame with id 42 and chunk bound 4000 gives
    // exactly 3 chunks of 4000, 4000 and 1000 bytes.
    let payload = payload_of_len(9000);
    let chunks = split_payload(&payload, 42, false);
    assert_eq!(chunks.len(), 3);
    assert_eq!(chunks[0].payload.len(), 4000);
    assert_eq!(chunks[1].payload.len(), 4000);
    assert_eq!(chunks[2].payload.len(), 1000);
    for (i, c) in chunks.iter().enumerate() {
        assert_eq!(c.frame_id, 42);
        assert_eq!(c.chunk_idx, i as u16);
        assert_eq!(c.total_chunks, 3);
    }

    // Delivering them in the order [1, 0, 2] still reconstructs the
    // original 9000 bytes, tagged as frame 42, on the final chunk.
    let mut rx = FrameAssembler::new();
    assert!(rx.add_chunk(&chunks[1], 0).is_none());
    assert!(rx.add_chunk(&chunks[0], 0).is_none());
    let done = rx.add_chunk(&chunks[2], 0);
    assert_eq!(done, Some(payload));
}

#[test]
fn reassembly_tolerates_duplicates() {
    let payload = payload_of_len(8500);
    let chunks = split_payload(&payload, 3, false);
    assert_eq!(chunks.len(), 3);
    let mut rx = FrameAssembler::new();
    assert!(rx.add_chunk(&chunks[2], 0).is_none());
    assert!(rx.add_chunk(&chunks[2], 0).is_none()); // duplicate
    assert!(rx.add_chunk(&chunks[0], 0).is_none());
    assert!(rx.add_chunk(&chunks[0], 0).is_none()); // duplicate
    let done = rx.add_chunk(&chunks[1], 0);
    assert_eq!(done, Some(payload));
}

#[test]
fn keyframe_mark_on_final_chunk() {
    let payload = payload_of_len(9000);
    let chunks = split_payload(&payload, 1, true);
    assert!(!chunks[0].is_keyframe);
    assert!(!chunks[1].is_keyframe);
    assert!(chunks[2].is_keyframe);
}

#[test]
fn staleness_rejection() {
    // Assembly in progress for id 10; chunks for id 9 are discarded
    // and do not disturb the assembly.
    let payload = payload_of_len(8000);
    let chunks = split_payload(&payload, 10, false);
    assert_eq!(chunks.len(), 2);
    let stale = VideoChunk {
        frame_id: 9,
        chunk_idx: 0,
        total_chunks: 1,
        is_keyframe: false,
        payload: vec![1, 2, 3],
    };
    let mut rx = FrameAssembler::new();
    assert!(rx.add_chunk(&chunks[0], 0).is_none());
    assert!(rx.add_chunk(&stale, 0).is_none());
    let done = rx.add_chunk(&chunks[1], 0);
    assert_eq!(done, Some(payload));
}

#[test]
fn newer_id_discards_partial_assembly() {
    let old_payload = payload_of_len(8000);
    let old_chunks = split_payload(&old_payload, 5, false);
    let new_payload = payload_of_len(100);
    let new_chunks = split_payload(&new_payload, 6, false);
    let mut rx = FrameAssembler::new();
    assert!(rx.add_chunk(&old_chunks[0], 0).is_none());
    // A chunk with a newer id restarts assembly at that id.
    let done = rx.add_chunk(&new_chunks[0], 0);
    assert_eq!(done, Some(new_payload));
    // The abandoned frame can no longer complete.
    assert!(rx.add_chunk(&old_chunks[1], 0).is_none());
}

#[test]
fn wraparound_restart_near_zero() {
    // Id 0 is treated as newer than a very large current id.
    let big_payload = payload_of_len(5000);
    let big_chunks = split_payload(&big_payload, 4_000_000_000, false);
    let wrap_payload = payload_of_len(60);
    let wrap_chunks = split_payload(&wrap_payload, 0, false);
    let mut rx = FrameAssembler::new();
    assert!(rx.add_chunk(&big_chunks[0], 0).is_none());
    let done = rx.add_chunk(&wrap_chunks[0], 0);
    assert_eq!(done, Some(wrap_payload));
}

#[test]
fn abandoned_assembly_scenario() {
    // Chunks 0 and 1 of a 3-chunk frame arrive, then more than 200 ms
    // pass with no chunk 2; a chunk for a later id starts a fresh
    // assembly, and the earlier partial state does not leak into it.
    let stuck_payload = payload_of_len(9000);
    let stuck = split_payload(&stuck_payload, 50, false);
    let next_payload = payload_of_len(8100);
    let next = split_payload(&next_payload, 51, false);

    let mut rx = FrameAssembler::new();
    assert!(rx.add_chunk(&stuck[0], 1000).is_none());
    assert!(rx.add_chunk(&stuck[1], 1010).is_none());
    // 201+ ms later, the next frame arrives.
    assert!(rx.add_chunk(&next[0], 1250).is_none());
    assert!(rx.add_chunk(&next[1], 1251).is_none());
    let done = rx.add_chunk(&next[2], 1252);
    assert_eq!(done, Some(next_payload));
    // The timed-out frame's last chunk is stale now.
    assert!(rx.add_chunk(&stuck[2], 1253).is_none());
}

#[test]
fn timeout_applies_to_same_id_refill() {
    // After a timeout, even a chunk of the same id restarts assembly
    // from scratch: the two earlier chunks are gone.
    let payload = payload_of_len(9000);
    let chunks = split_payload(&payload, 8, false);
    let mut rx = FrameAssembler::new();
    assert!(rx.add_chunk(&chunks[0], 0).is_none());
    assert!(rx.add_chunk(&chunks[1], 10).is_none());
    // Timeout passes; chunk 2 restarts an assembly that only holds
    // chunk 2, so nothing completes.
    assert!(rx.add_chunk(&chunks[2], 500).is_none());
    // Refilling the other two completes again.
    assert!(rx.add_chunk(&chunks[0], 501).is_none());
    let done = rx.add_chunk(&chunks[1], 502);
    assert_eq!(done, Some(payload));
}

#[test]
fn zero_total_chunks_is_ignored() {
    let bogus = VideoChunk {
        frame_id: 1,
        chunk_idx: 0,
        total_chunks: 0,
        is_keyframe: false,
        payload: vec![1],
    };
    let mut rx = FrameAssembler::new();
    assert!(rx.add_chunk(&bogus, 0).is_none());
}

#[test]
fn out_of_range_index_starts_but_never_fills() {
    let bogus = VideoChunk {
        frame_id: 2,
        chunk_idx: 9,
        total_chunks: 2,
        is_keyframe: false,
        payload: vec![1],
    };
    let mut rx = FrameAssembler::new();
    assert!(rx.add_chunk(&bogus, 0).is_none());
}
