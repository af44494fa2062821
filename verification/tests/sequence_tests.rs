use iox_core::{SequenceNumber, SequenceNumberRange};

#[test]
fn test_sequence_range_observe() {
    let mut r = SequenceNumberRange::new();
    assert!(r.inclusive_min().is_none());
    assert!(r.inclusive_max().is_none());

    r.observe(SequenceNumber::new(5));
    assert_eq!(r.inclusive_min().unwrap().get(), 5);
    assert_eq!(r.inclusive_max().unwrap().get(), 5);

    // Observing an equal value changes nothing: observe is idempotent there.
    r.observe(SequenceNumber::new(5));
    assert_eq!(r.inclusive_min().unwrap().get(), 5);
    assert_eq!(r.inclusive_max().unwrap().get(), 5);

    r.observe(SequenceNumber::new(9));
    assert_eq!(r.inclusive_min().unwrap().get(), 5);
    assert_eq!(r.inclusive_max().unwrap().get(), 9);
}
