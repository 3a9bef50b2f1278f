use chronos::hash::state_hash;
use chronos::md::Broadcaster;
use chronos::risk::{Caps, Risk, RiskError};
use chronos::snapshot::{SnapshotError, Snapshotter};
use chronos::wal::{frame_record, parse_records, FrameError};

#[test]
fn wal_frames_roundtrip_from_any_record_boundary() {
    let recs: Vec<Vec<u8>> = vec![b"first".to_vec(), vec![], vec![7u8; 300]];
    let mut log: Vec<u8> = Vec::new();
    let mut offsets = vec![0u64];
    for r in &recs {
        log.extend(frame_record(r));
        offsets.push(log.len() as u64);
    }
    assert_eq!(&log[0..4], &5u32.to_le_bytes());
    assert_eq!(parse_records(&log, 0).unwrap(), recs);
    assert_eq!(parse_records(&log, offsets[1]).unwrap(), recs[1..].to_vec());
    assert_eq!(parse_records(&log, offsets[3]).unwrap(), Vec::<Vec<u8>>::new());
}

#[test]
fn wal_errors() {
    let mut log = frame_record(b"abc");
    assert_eq!(parse_records(&log, 100), Err(FrameError::StartPastEnd));
    log.extend(9u32.to_le_bytes());
    log.extend(b"xy");
    assert_eq!(parse_records(&log, 0), Err(FrameError::Truncated));
    let mut tail = frame_record(b"abc");
    tail.extend([1u8, 2]);
    assert_eq!(parse_records(&tail, 0).unwrap(), vec![b"abc".to_vec()]);
}

#[test]
fn snapshot_roundtrip() {
    let s = Snapshotter::new("snapshots".to_string());
    assert_eq!(s.dir, "snapshots");
    let state = b"serialized books".repeat(20);
    let file = s.write_all(&state, 1234).unwrap();
    assert_eq!(&file[0..4], b"CHS2");
    assert_eq!(&file[4..12], &1234u64.to_le_bytes());
    assert_eq!(zstd::decode_all(&file[12..]).unwrap(), state);
    assert_eq!(s.try_read_latest(Some(file)), Ok(Some((state, 1234))));
}

#[test]
fn snapshot_missing_legacy_and_damaged() {
    let s = Snapshotter::new("d".to_string());
    assert_eq!(s.try_read_latest(None), Ok(None));
    assert_eq!(s.try_read_latest(Some(b"OLD1 whatever".to_vec())), Ok(None));
    assert_eq!(s.try_read_latest(Some(b"CH".to_vec())), Err(SnapshotError::Truncated));
    assert_eq!(s.try_read_latest(Some(b"CHS2\x01\x02".to_vec())), Err(SnapshotError::Truncated));
    let mut junk = b"CHS2".to_vec();
    junk.extend(7u64.to_le_bytes());
    junk.extend(b"not zstd");
    assert_eq!(s.try_read_latest(Some(junk)), Err(SnapshotError::Decompress));
}

#[test]
fn state_hash_is_blake3_of_concatenation() {
    let parts = vec![b"ab".to_vec(), b"c".to_vec()];
    let h = state_hash(&parts);
    assert_eq!(&h, blake3::hash(b"abc").as_bytes());
    assert_ne!(h, state_hash(&vec![b"ab".to_vec()]));
    assert_eq!(h, state_hash(&vec![b"a".to_vec(), b"bc".to_vec()]));
}

#[test]
fn ring_keeps_newest_within_capacity() {
    let mut b = Broadcaster::new(2);
    b.push(1, "one".to_string());
    b.push(2, "two".to_string());
    b.push(3, "three".to_string());
    assert_eq!(b.ring.len(), 2);
    assert_eq!(b.snapshot_from_seq(0), vec!["two".to_string(), "three".to_string()]);
    assert_eq!(b.snapshot_from_seq(2), vec!["three".to_string()]);
    assert!(b.snapshot_from_seq(3).is_empty());
    let mut z = Broadcaster::new(0);
    z.push(1, "x".to_string());
    assert!(z.ring.is_empty());
}

#[test]
fn resync_filters_by_sequence_not_position() {
    let mut b = Broadcaster::new(10);
    b.push(5, "a".to_string());
    b.push(3, "b".to_string());
    b.push(7, "c".to_string());
    assert_eq!(b.snapshot_from_seq(4), vec!["a".to_string(), "c".to_string()]);
}

#[test]
fn token_bucket_refills_up_to_burst() {
    let mut r = Risk::new(Caps { max_position: 1, max_notional_cents: 1, rate_per_sec: 1, burst: 2 });
    assert_eq!(r.check_rate_limit_at(9, 100), Ok(()));
    assert_eq!(r.check_rate_limit_at(9, 100), Ok(()));
    assert_eq!(r.check_rate_limit_at(9, 100), Err(RiskError::RateLimited));
    assert_eq!(r.check_rate_limit_at(9, 101), Ok(()));
    assert_eq!(r.check_rate_limit_at(9, 101), Err(RiskError::RateLimited));
    assert_eq!(r.check_rate_limit_at(9, 200), Ok(()));
    assert_eq!(r.check_rate_limit_at(9, 200), Ok(()));
    assert_eq!(r.check_rate_limit_at(9, 200), Err(RiskError::RateLimited));
    assert_eq!(r.check_rate_limit_at(10, 200), Ok(()));
    assert_eq!(RiskError::RateLimited.message(), "rate limit exceeded");
}

#[test]
fn live_clock_rate_limit_admits_first_request() {
    let mut r = Risk::new(Caps { max_position: 1, max_notional_cents: 1, rate_per_sec: 1000, burst: 2000 });
    assert_eq!(r.check_rate_limit(1), Ok(()));
    assert_eq!(r.caps().burst, 2000);
}

#[test]
fn idempotency_key_used_once() {
    let mut r = Risk::new(Caps { max_position: 1, max_notional_cents: 1, rate_per_sec: 1, burst: 1 });
    assert_eq!(r.check_idempotency("k"), Ok(()));
    assert_eq!(r.check_idempotency("k"), Err(RiskError::DuplicateIdempotencyKey));
    assert_eq!(r.check_idempotency("k2"), Ok(()));
}

#[test]
fn token_bucket_refill_saturates_at_burst() {
    let mut r = Risk::new(Caps { max_position: 1, max_notional_cents: 1, rate_per_sec: 4_000_000_000, burst: 3 });
    for _ in 0..3 {
        assert_eq!(r.check_rate_limit_at(1, 0), Ok(()));
    }
    assert_eq!(r.check_rate_limit_at(1, 0), Err(RiskError::RateLimited));
    for _ in 0..3 {
        assert_eq!(r.check_rate_limit_at(1, u64::MAX), Ok(()));
    }
    assert_eq!(r.check_rate_limit_at(1, u64::MAX), Err(RiskError::RateLimited));
}
