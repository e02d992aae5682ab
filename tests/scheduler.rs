use hue_flow_core::models::LightState;
use hue_flow_core::protocol::encode_frame;
use hue_flow_core::scheduler::{StreamScheduler, FRAME_INTERVAL_MS};
use std::collections::HashMap;

fn state(id: u8, r: u8, g: u8, b: u8) -> LightState {
    LightState { id, r, g, b }
}

#[test]
fn burst_of_updates_is_paced_and_kept_alive() {
    let mut s = StreamScheduler::new(FRAME_INTERVAL_MS, 1000);
    let mut sent: Vec<(u64, Vec<u8>)> = Vec::new();
    for i in 0..100u32 {
        s.merge(&[state((i % 5) as u8, i as u8, 0, 0)]);
        if let Some(f) = s.poll(1000) {
            sent.push((1000, f));
        }
    }
    assert!(sent.is_empty());
    for t in (1000..1200u64).step_by(5) {
        if let Some(f) = s.poll(t) {
            sent.push((t, f));
        }
    }
    assert!(sent.len() >= 9);
    for w in sent.windows(2) {
        assert!(w[1].0 - w[0].0 >= FRAME_INTERVAL_MS);
    }
    let mut last_state = HashMap::new();
    for id in 0..5u8 {
        last_state.insert(id, (95 + id, 0, 0));
    }
    for (k, (_, f)) in sent.iter().enumerate() {
        assert_eq!(f, &encode_frame(k as u8, &last_state));
    }
}

#[test]
fn no_frame_before_deadline() {
    let mut s = StreamScheduler::new(20, 100);
    s.merge(&[state(1, 1, 2, 3)]);
    assert_eq!(s.next_deadline(), 120);
    assert!(s.poll(119).is_none());
    assert!(s.poll(50).is_none());
    assert!(s.poll(120).is_some());
    assert_eq!(s.next_deadline(), 140);
}

#[test]
fn empty_state_sends_nothing_but_advances() {
    let mut s = StreamScheduler::new(20, 0);
    assert!(s.poll(25).is_none());
    assert_eq!(s.last_frame_ms, 25);
    assert_eq!(s.sequence.next, 0);
}

#[test]
fn merge_last_writer_wins() {
    let mut s = StreamScheduler::new(20, 0);
    s.merge(&[state(3, 1, 1, 1), state(4, 2, 2, 2), state(3, 9, 9, 9)]);
    s.merge(&[state(4, 5, 5, 5)]);
    assert_eq!(s.current.len(), 2);
    assert_eq!(s.current[&3], (9, 9, 9));
    assert_eq!(s.current[&4], (5, 5, 5));
}

#[test]
fn deadline_saturates() {
    let s = StreamScheduler::new(20, u64::MAX - 5);
    assert_eq!(s.next_deadline(), u64::MAX);
}
