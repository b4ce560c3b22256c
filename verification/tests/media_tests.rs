use lanshare::media::{choose_playback_rate, is_forced_keyframe, pick_encoder, sequence_gap,
    AdaptiveQuality, DecoderHealth, EncoderKind, LatestSlot, INITIAL_QUALITY, MAX_QUALITY,
    MIN_QUALITY};

#[test]
fn latest_slot_overwrites() {
    let mut slot: LatestSlot<u32> = LatestSlot::new();
    assert_eq!(slot.take(), None);
    slot.put(1);
    slot.put(2);
    slot.put(3);
    // The worker always sees the newest submitted unit.
    assert_eq!(slot.take(), Some(3));
    assert_eq!(slot.take(), None);
}

#[test]
fn keyframe_schedule() {
    assert!(is_forced_keyframe(0));
    assert!(!is_forced_keyframe(1));
    assert!(!is_forced_keyframe(59));
    assert!(is_forced_keyframe(60));
    assert!(is_forced_keyframe(120));
}

#[test]
fn quality_adapts_to_backlog() {
    let mut q = AdaptiveQuality::new();
    assert_eq!(q.current_quality(), INITIAL_QUALITY);

    // Deep backlog: cut by 10.
    for _ in 0..4 {
        q.frame_submitted();
    }
    q.adjust();
    assert_eq!(q.current_quality(), INITIAL_QUALITY - 10);

    // Slight backlog: trim by 3.
    q.frame_done();
    q.frame_done();
    q.adjust();
    assert_eq!(q.current_quality(), INITIAL_QUALITY - 13);

    // Keeping up: raise by 2.
    q.frame_done();
    q.frame_done();
    q.adjust();
    assert_eq!(q.current_quality(), INITIAL_QUALITY - 11);
}

#[test]
fn quality_stays_within_bounds() {
    let mut q = AdaptiveQuality::new();
    for _ in 0..4 {
        q.frame_submitted();
    }
    for _ in 0..20 {
        q.adjust();
    }
    assert_eq!(q.current_quality(), MIN_QUALITY);
    for _ in 0..4 {
        q.frame_done();
    }
    for _ in 0..40 {
        q.adjust();
    }
    assert_eq!(q.current_quality(), MAX_QUALITY);
}

#[test]
fn decoder_health_failure_threshold() {
    let mut h = DecoderHealth::new(0);
    for _ in 0..30 {
        h.note_failure();
    }
    assert!(!h.needs_reset(10));
    h.note_failure();
    assert!(h.needs_reset(10));
    h.note_success(20);
    assert!(!h.needs_reset(20));
}

#[test]
fn decoder_health_stall_threshold() {
    let mut h = DecoderHealth::new(1000);
    assert!(!h.needs_reset(6000));
    assert!(h.needs_reset(6001));
    h.note_success(6001);
    assert!(!h.needs_reset(7000));
}

#[test]
fn playback_rate_preference() {
    assert_eq!(choose_playback_rate(8000, 96000), 48000);
    assert_eq!(choose_playback_rate(44100, 44100), 44100);
    assert_eq!(choose_playback_rate(8000, 22050), 22050);
    assert_eq!(choose_playback_rate(96000, 192000), 48000);
}

#[test]
fn sequence_gap_counts_losses() {
    assert_eq!(sequence_gap(5, 6), 0);
    assert_eq!(sequence_gap(5, 9), 3);
    // Wraparound: after u32::MAX comes 0.
    assert_eq!(sequence_gap(u32::MAX, 0), 0);
    assert_eq!(sequence_gap(u32::MAX, 2), 2);
}

#[test]
fn encoder_preference_order() {
    let listing = b"... h264_qsv ... h264_amf ...".to_vec();
    assert_eq!(pick_encoder(&listing), EncoderKind::Amf);
    let listing = b"only h264_videotoolbox here".to_vec();
    assert_eq!(pick_encoder(&listing), EncoderKind::VideoToolbox);
    let listing = b"h264_nvenc and everything else h264_amf h264_qsv".to_vec();
    assert_eq!(pick_encoder(&listing), EncoderKind::Nvenc);
    let listing = b"libx264 only".to_vec();
    assert_eq!(pick_encoder(&listing), EncoderKind::Software);
    let listing = b"nothing at all".to_vec();
    assert_eq!(pick_encoder(&listing), EncoderKind::Software);
}
