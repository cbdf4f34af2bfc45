use lightning_warning::ualf::UalfData;
use lightning_warning::ualf_buffer::{UalfBuffer, PROCESSED_BUFFER_SIZE};

fn mk(ts: i64) -> UalfData {
    UalfData {
        epoch_ns: ts,
        latitude: 59_000_000,
        longitude: 10_000_000,
        peak_current: -12,
        cloud_indicator: false,
    }
}

#[test]
fn new_buffer_starts_empty() {
    let buffer = UalfBuffer::new();
    assert_eq!(buffer.processed_observations.len(), PROCESSED_BUFFER_SIZE);
    assert!(buffer.processed_observations.iter().all(|&ts| ts == 0));
    assert_eq!(buffer.processed_observation_index, 0);
}

#[test]
fn first_pass_returns_all_second_pass_none() {
    let mut buffer = UalfBuffer::new();
    let batch = vec![mk(10), mk(20), mk(30)];
    let first = buffer.get_unchecked_observations(&batch);
    assert_eq!(first.len(), 3);
    assert_eq!(first[0].epoch_ns, 10);
    assert_eq!(first[1].epoch_ns, 20);
    assert_eq!(first[2].epoch_ns, 30);
    let second = buffer.get_unchecked_observations(&batch);
    assert!(second.is_empty());
}

#[test]
fn duplicates_within_one_batch_both_pass() {
    let mut buffer = UalfBuffer::new();
    let batch = vec![mk(77), mk(77)];
    let first = buffer.get_unchecked_observations(&batch);
    assert_eq!(first.len(), 2);
    let second = buffer.get_unchecked_observations(&batch);
    assert!(second.is_empty());
}

#[test]
fn zero_timestamp_is_suppressed_from_the_start() {
    let mut buffer = UalfBuffer::new();
    let batch = vec![mk(0), mk(5)];
    let first = buffer.get_unchecked_observations(&batch);
    assert_eq!(first.len(), 1);
    assert_eq!(first[0].epoch_ns, 5);
}

#[test]
fn mixed_old_and_new_keeps_relative_order() {
    let mut buffer = UalfBuffer::new();
    buffer.get_unchecked_observations(&vec![mk(1), mk(2)]);
    let next = buffer.get_unchecked_observations(&vec![mk(3), mk(1), mk(4), mk(2), mk(5)]);
    let got: Vec<i64> = next.iter().map(|o| o.epoch_ns).collect();
    assert_eq!(got, vec![3, 4, 5]);
}

#[test]
fn cursor_wraps_across_calls_and_overwrites_oldest() {
    let mut buffer = UalfBuffer::new();
    let k = 2usize;
    let batch: Vec<UalfData> = (1..=(PROCESSED_BUFFER_SIZE + k) as i64).map(mk).collect();
    buffer.get_unchecked_observations(&batch);
    // The wrapping batch left the cursor two slots in, not reset to the
    // start: the next write lands on the oldest live entry (timestamp 3),
    // not on the newest ones at the front.
    assert_eq!(buffer.processed_observation_index, k);
    buffer.get_unchecked_observations(&vec![mk(9_000_000)]);
    assert_eq!(buffer.processed_observation_index, k + 1);
    let again = buffer.get_unchecked_observations(&vec![mk(3), mk(4)]);
    let got: Vec<i64> = again.iter().map(|o| o.epoch_ns).collect();
    assert_eq!(got, vec![3]);
}

#[test]
fn capacity_wraparound_reexposes_earliest() {
    let mut buffer = UalfBuffer::new();
    let k = 2usize;
    let batch: Vec<UalfData> = (1..=(PROCESSED_BUFFER_SIZE + k) as i64).map(mk).collect();
    let first = buffer.get_unchecked_observations(&batch);
    assert_eq!(first.len(), PROCESSED_BUFFER_SIZE + k);
    // The earliest k timestamps were overwritten by the wrapped writes, so
    // they read as new again; the later ones stay suppressed.
    let resubmit = buffer.get_unchecked_observations(&batch);
    let got: Vec<i64> = resubmit.iter().map(|o| o.epoch_ns).collect();
    assert_eq!(got, vec![1, 2]);
}
