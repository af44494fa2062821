use iox_core::duration::{parse_duration, Duration, NANOS_PER_DAY, NANOS_PER_HOUR, NANOS_PER_MICRO,
    NANOS_PER_MILLI, NANOS_PER_MIN, NANOS_PER_SEC, NANOS_PER_WEEK};

#[test]
fn test_duration_fragment() {
    let got = parse_duration(b"38ns").unwrap();
    assert_eq!(got.0, 38);

    let got = parse_duration(b"22us").unwrap();
    assert_eq!(got.0, 22 * NANOS_PER_MICRO);

    let got = parse_duration("7\u{b5}s".as_bytes()).unwrap();
    assert_eq!(got.0, 7 * NANOS_PER_MICRO);

    let got = parse_duration(b"15ms").unwrap();
    assert_eq!(got.0, 15 * NANOS_PER_MILLI);

    let got = parse_duration(b"53s").unwrap();
    assert_eq!(got.0, 53 * NANOS_PER_SEC);

    let got = parse_duration(b"158m").unwrap();
    assert_eq!(got.0, 158 * NANOS_PER_MIN);

    let got = parse_duration(b"39h").unwrap();
    assert_eq!(got.0, 39 * NANOS_PER_HOUR);

    let got = parse_duration(b"2d").unwrap();
    assert_eq!(got.0, 2 * NANOS_PER_DAY);

    let got = parse_duration(b"5w").unwrap();
    assert_eq!(got.0, 5 * NANOS_PER_WEEK);
}

#[test]
fn test_duration() {
    let got = parse_duration(b"10h3m2s").unwrap();
    assert_eq!(
        got,
        Duration(10 * NANOS_PER_HOUR + 3 * NANOS_PER_MIN + 2 * NANOS_PER_SEC)
    );
}

#[test]
fn test_display_duration() {
    let d = parse_duration(b"3w2h15ms").unwrap();
    assert_eq!(d.to_text(), b"3w2h15ms".to_vec());

    let d = parse_duration(b"5s5s5s5s5s").unwrap();
    assert_eq!(d.to_text(), b"25s".to_vec());

    let d = Duration(0);
    assert_eq!(d.to_text(), b"0s".to_vec());

    let d = Duration(
        20 * NANOS_PER_WEEK
            + 6 * NANOS_PER_DAY
            + 13 * NANOS_PER_HOUR
            + 11 * NANOS_PER_MIN
            + 10 * NANOS_PER_SEC
            + 9 * NANOS_PER_MILLI
            + 8 * NANOS_PER_MICRO
            + 500,
    );
    assert_eq!(d.to_text(), b"20w6d13h11m10s9ms8us500ns".to_vec());
}

#[test]
fn test_duration_round_trip_samples() {
    for v in [0i64, 1, 2, 999, 1000, 1_000_000, 604_800_000_000_000, 123_456_789_012_345, i64::MAX] {
        let text = Duration(v).to_text();
        let back = parse_duration(&text).unwrap();
        assert_eq!(back.0, v, "round trip failed for {v}");
    }
}

#[test]
fn test_duration_one_nanosecond_and_whole_units() {
    assert_eq!(Duration(1).to_text(), b"1ns".to_vec());
    assert_eq!(Duration(NANOS_PER_WEEK).to_text(), b"1w".to_vec());
    assert_eq!(Duration(NANOS_PER_SEC).to_text(), b"1s".to_vec());
}

#[test]
fn test_duration_rejects_junk() {
    assert!(parse_duration(b"hello").is_none());
    assert!(parse_duration(b"").is_none());
    assert!(parse_duration(b"12").is_none());
    assert!(parse_duration(b"12q").is_none());
}
