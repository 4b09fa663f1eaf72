use cycles::codec::{decode_description_full, encode_description};
use cycles::{Date, Description, Interval};

fn full_description() -> Description {
    Description {
        label: "Sleep".into(),
        description: Some("Eight hours, every night".into()),
        color: Some("#aabbcc".into()),
        tags: vec!["health".into(), "health".into(), "daily".into()],
        start: Date { days: -5 },
        interval: Interval::Monthly,
        interval_multiplier: 3,
    }
}

#[test]
fn round_trip_full_record() {
    let d = full_description();
    let bytes = encode_description(&d);
    let back = decode_description_full(&bytes).unwrap();
    assert_eq!(back, d);
}

#[test]
fn round_trip_minimal_record() {
    let d = Description {
        label: "".into(),
        description: None,
        color: None,
        tags: vec![],
        start: Date { days: 0 },
        interval: Interval::Weekly,
        interval_multiplier: 1,
    };
    let bytes = encode_description(&d);
    let back = decode_description_full(&bytes).unwrap();
    assert_eq!(back, d);
}

#[test]
fn round_trip_wide_characters() {
    let mut d = full_description();
    d.label = "h\u{e9}llo \u{2192} \u{4e16}\u{754c}".into();
    d.tags = vec!["\u{1f4a4}".into()];
    let bytes = encode_description(&d);
    let back = decode_description_full(&bytes).unwrap();
    assert_eq!(back, d);
}

#[test]
fn round_trip_extreme_numbers() {
    let mut d = full_description();
    d.start = Date { days: i64::MIN };
    d.interval_multiplier = i64::MAX;
    let bytes = encode_description(&d);
    let back = decode_description_full(&bytes).unwrap();
    assert_eq!(back, d);
}

#[test]
fn decode_garbage_fails() {
    assert!(decode_description_full(&vec![1u8, 2, 3]).is_none());
    assert!(decode_description_full(&Vec::new()).is_none());
    assert!(decode_description_full(&vec![0xffu8; 64]).is_none());
}

#[test]
fn decode_trailing_bytes_fails() {
    let d = full_description();
    let mut bytes = encode_description(&d);
    bytes.push(0);
    assert!(decode_description_full(&bytes).is_none());
}

#[test]
fn decode_truncated_fails() {
    let d = full_description();
    let mut bytes = encode_description(&d);
    bytes.pop();
    assert!(decode_description_full(&bytes).is_none());
}

#[test]
fn encoding_differs_between_values() {
    let d = full_description();
    let mut e = full_description();
    e.label = "Wake".into();
    assert_ne!(encode_description(&d), encode_description(&e));
}
