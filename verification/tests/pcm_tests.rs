use lanshare::pcm::{chunk_audio, pack_samples, unpack_samples, AUDIO_CHUNK_BOUND};

#[test]
fn pack_unpack_round_trip() {
    let samples: Vec<u16> = vec![0, 1, 0x7FFF, 0x8000, 0xFFFF, 1234];
    let packed = pack_samples(&samples);
    assert_eq!(packed.len(), 2 * samples.len());
    let unpacked = unpack_samples(&packed).expect("even length");
    assert_eq!(unpacked, samples);
}

#[test]
fn pack_is_little_endian() {
    let packed = pack_samples(&vec![0x1234u16]);
    assert_eq!(packed, vec![0x34, 0x12]);
}

#[test]
fn odd_length_stream_is_refused() {
    assert!(unpack_samples(&vec![1, 2, 3]).is_none());
}

#[test]
fn chunking_respects_bound_and_numbers_packets() {
    let data: Vec<u8> = (0..3000).map(|i| (i % 256) as u8).collect();
    let chunks = chunk_audio(&data, 10, 48000, 2);
    assert_eq!(chunks.len(), 3);
    assert_eq!(chunks[0].payload.len(), AUDIO_CHUNK_BOUND);
    assert_eq!(chunks[1].payload.len(), AUDIO_CHUNK_BOUND);
    assert_eq!(chunks[2].payload.len(), 600);
    for (i, c) in chunks.iter().enumerate() {
        assert_eq!(c.sequence, 10 + i as u32);
        assert_eq!(c.sample_rate, 48000);
        assert_eq!(c.channels, 2);
    }
    let rejoined: Vec<u8> = chunks.iter().flat_map(|c| c.payload.clone()).collect();
    assert_eq!(rejoined, data);
}

#[test]
fn chunk_sequence_wraps() {
    let data: Vec<u8> = vec![0; 2 * AUDIO_CHUNK_BOUND];
    let chunks = chunk_audio(&data, u32::MAX, 44100, 1);
    assert_eq!(chunks.len(), 2);
    assert_eq!(chunks[0].sequence, u32::MAX);
    assert_eq!(chunks[1].sequence, 0);
}

#[test]
fn empty_stream_yields_no_chunks() {
    let chunks = chunk_audio(&Vec::new(), 0, 48000, 2);
    assert!(chunks.is_empty());
}
