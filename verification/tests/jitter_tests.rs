use lanshare::jitter::{FrameUnit, JitterBuffer, JITTER_MIN_DELAY_MS, JITTER_TARGET_DEPTH};

fn unit(id: u32) -> FrameUnit {
    FrameUnit { id, payload: vec![id as u8], width: 0, height: 0 }
}

#[test]
fn pops_strictly_increase_under_any_arrival_order() {
    // Pushes in scrambled order with duplicates and rewound ids; the
    // released ids must be strictly increasing.
    let mut jb = JitterBuffer::new(JITTER_TARGET_DEPTH, JITTER_MIN_DELAY_MS);
    let arrivals = [5u32, 3, 5, 9, 1, 3, 7, 2, 9, 4];
    let mut released: Vec<u32> = Vec::new();
    let mut now = 0u64;
    for id in arrivals {
        jb.push(unit(id), now);
        now += 5;
        if let Some(u) = jb.pop(now) {
            released.push(u.id);
        }
    }
    // Drain what remains, far in the future so the hold delay is over.
    now += 1000;
    while let Some(u) = jb.pop(now) {
        released.push(u.id);
        now += 1;
    }
    assert!(!released.is_empty());
    for w in released.windows(2) {
        assert!(w[0] < w[1], "released ids must strictly increase: {:?}", released);
    }
}

#[test]
fn released_id_never_rebuffered() {
    let mut jb = JitterBuffer::new(2, 20);
    jb.push(unit(4), 0);
    jb.push(unit(5), 0);
    let first = jb.pop(0).expect("buffer at target depth releases");
    assert_eq!(first.id, 4);
    // A unit at or behind the watermark is dropped on arrival.
    jb.push(unit(4), 1);
    jb.push(unit(3), 1);
    let second = jb.pop(100).expect("held unit releases after the delay");
    assert_eq!(second.id, 5);
    assert!(jb.pop(200).is_none());
}

#[test]
fn duplicate_buffered_id_is_dropped() {
    let mut jb = JitterBuffer::new(2, 20);
    jb.push(unit(7), 0);
    jb.push(unit(7), 0);
    assert_eq!(jb.len(), 1);
}

#[test]
fn under_target_waits_for_hold_delay() {
    let mut jb = JitterBuffer::new(2, 20);
    jb.push(unit(1), 100);
    // One unit buffered, delay not yet over: nothing releases.
    assert!(jb.pop(110).is_none());
    // Once the oldest unit has waited the minimum delay, it releases.
    let u = jb.pop(120).expect("released after 20 ms hold");
    assert_eq!(u.id, 1);
}

#[test]
fn at_target_releases_immediately() {
    let mut jb = JitterBuffer::new(2, 20);
    jb.push(unit(1), 0);
    jb.push(unit(2), 0);
    assert!(jb.is_ready());
    let u = jb.pop(0).expect("at target depth");
    assert_eq!(u.id, 1);
}

#[test]
fn one_unit_per_poll() {
    let mut jb = JitterBuffer::new(1, 20);
    jb.push(unit(1), 0);
    jb.push(unit(2), 0);
    let a = jb.pop(0).unwrap();
    let b = jb.pop(0).unwrap();
    assert_eq!((a.id, b.id), (1, 2));
}

#[test]
fn overfull_buffer_drops_oldest() {
    let mut jb = JitterBuffer::new(2, 20);
    for id in 1..=5u32 {
        jb.push(unit(id), 0);
    }
    // Capacity is twice the target depth; the oldest id was dropped.
    assert_eq!(jb.len(), 4);
    let u = jb.pop(0).unwrap();
    assert_eq!(u.id, 2);
}
