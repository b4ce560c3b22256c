use lanshare::assembler::{split_payload, FrameAssembler};
use lanshare::jitter::{FrameUnit, JitterBuffer};
use lanshare::pcm::{chunk_audio, pack_samples, unpack_samples};
use lanshare::protocol::ServerMessage;
use lanshare::wire::{decode_server_message, encode_server_message};

#[test]
fn video_path_end_to_end() {
    // Host side: an encoded frame is split into chunks and each chunk
    // leaves as one datagram. Client side: datagrams are decoded,
    // reassembled, and the payload comes out whole.
    let payload: Vec<u8> = (0..10_000).map(|i| (i % 253) as u8).collect();
    let chunks = split_payload(&payload, 9, true);
    let datagrams: Vec<Vec<u8>> = chunks
        .into_iter()
        .map(|c| encode_server_message(&ServerMessage::VideoFrame(c)))
        .collect();

    let mut rx = FrameAssembler::new();
    let mut jitter = JitterBuffer::new(2, 20);
    let mut done = None;
    // Deliver out of order.
    for i in [2usize, 0, 1] {
        match decode_server_message(&datagrams[i]) {
            Some(ServerMessage::VideoFrame(chunk)) => {
                if let Some(data) = rx.add_chunk(&chunk, 0) {
                    jitter.push(
                        FrameUnit { id: chunk.frame_id, payload: data.clone(), width: 0, height: 0 },
                        0,
                    );
                    done = Some(data);
                }
            }
            other => panic!("expected VideoFrame, got {:?}", other),
        }
    }
    assert_eq!(done, Some(payload.clone()));
    let unit = jitter.pop(100).expect("buffered unit releases");
    assert_eq!(unit.id, 9);
    assert_eq!(unit.payload, payload);
}

#[test]
fn audio_path_end_to_end() {
    let samples: Vec<u16> = (0..2000u32).map(|i| (i * 17 % 65536) as u16).collect();
    let pcm = pack_samples(&samples);
    let chunks = chunk_audio(&pcm, 5, 48000, 2);
    assert!(chunks.len() > 1);

    let mut received: Vec<u8> = Vec::new();
    for c in chunks {
        let datagram = encode_server_message(&ServerMessage::AudioFrame(c));
        match decode_server_message(&datagram) {
            Some(ServerMessage::AudioFrame(chunk)) => {
                assert_eq!(chunk.sample_rate, 48000);
                assert_eq!(chunk.channels, 2);
                received.extend_from_slice(&chunk.payload);
            }
            other => panic!("expected AudioFrame, got {:?}", other),
        }
    }
    let out = unpack_samples(&received).expect("even length");
    assert_eq!(out, samples);
}
