use iox_core::summary::WriteSummary;
use iox_core::{SequenceNumber, SequenceNumberRange};

#[test]
fn test_write_summary_token() {
    let mut s = WriteSummary::new();
    let mut r1 = SequenceNumberRange::new();
    r1.observe(SequenceNumber::new(0));
    r1.observe(SequenceNumber::new(2));
    s.push(1, r1);
    let r2 = SequenceNumberRange::new();
    s.push(7, r2);

    assert_eq!(s.len(), 2);
    let (pid, min, max) = s.get(0);
    assert_eq!(pid, 1);
    assert_eq!(min.unwrap().get(), 0);
    assert_eq!(max.unwrap().get(), 2);

    assert_eq!(s.to_token(), b"1.0.2;7.x.x;".to_vec());
}

#[test]
fn test_write_summary_empty_token() {
    let s = WriteSummary::new();
    assert_eq!(s.to_token(), b"".to_vec());
}

#[test]
fn test_write_summary_token_round_trip() {
    let mut s = WriteSummary::new();
    let mut r1 = SequenceNumberRange::new();
    r1.observe(SequenceNumber::new(-3));
    r1.observe(SequenceNumber::new(12));
    s.push(-9, r1);
    s.push(4, SequenceNumberRange::new());

    let decoded = WriteSummary::from_token(&s.to_token()).expect("token must decode");
    assert_eq!(decoded.len(), 2);
    let (pid, min, max) = decoded.get(0);
    assert_eq!(pid, -9);
    assert_eq!(min.unwrap().get(), -3);
    assert_eq!(max.unwrap().get(), 12);
    let (pid, min, max) = decoded.get(1);
    assert_eq!(pid, 4);
    assert!(min.is_none());
    assert!(max.is_none());

    assert!(WriteSummary::from_token(b"junk").is_none());
}
