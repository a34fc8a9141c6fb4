use wrx::imu_node::{marker, split_reading, ImuReader, ReadStep};

fn words(v: &[Vec<u8>]) -> Vec<&[u8]> {
    v.iter().map(|w| w.as_slice()).collect()
}

#[test]
fn reader_collects_until_end_byte() {
    let mut r = ImuReader::new();
    for &b in b"0.1 0.2\n 0.3" {
        assert!(matches!(r.feed(&[b]), ReadStep::Pending));
    }
    assert!(matches!(r.feed(&[]), ReadStep::Pending));
    match r.feed(b">") {
        ReadStep::Reading(line) => assert_eq!(line.as_slice(), b"0.1 0.2 0.3"),
        _ => panic!("expected a reading"),
    }
    // the reader starts afresh
    match r.feed(b">") {
        ReadStep::Reading(line) => assert!(line.is_empty()),
        _ => panic!("expected an empty reading"),
    }
}

#[test]
fn reader_abandons_non_text() {
    let mut r = ImuReader::new();
    assert!(matches!(r.feed(b"a"), ReadStep::Pending));
    assert!(matches!(r.feed(&[0x80]), ReadStep::Invalid));
    match r.feed(b">") {
        ReadStep::Reading(line) => assert!(line.is_empty()),
        _ => panic!("expected an empty reading"),
    }
}

#[test]
fn reader_keeps_multi_byte_chunks_and_carriage_returns() {
    let mut r = ImuReader::new();
    assert!(matches!(r.feed(b">>"), ReadStep::Pending));
    assert!(matches!(r.feed(b"\r"), ReadStep::Pending));
    match r.feed(b">") {
        ReadStep::Reading(line) => assert_eq!(line.as_slice(), b">>\r"),
        _ => panic!("expected a reading"),
    }
}

#[test]
fn split_reading_at_marker() {
    assert_eq!(marker().as_slice(), b"|ang_vel:");
    let f = split_reading(b"0.1 0.2 0.3|ang_vel:1 2 3").unwrap();
    assert_eq!(words(&f.orientation), vec![&b"0.1"[..], b"0.2", b"0.3"]);
    assert_eq!(words(&f.angular_velocity), vec![&b"1"[..], b"2", b"3"]);
}

#[test]
fn split_reading_uses_first_marker() {
    let f = split_reading(b"a|ang_vel:b|ang_vel:c").unwrap();
    assert_eq!(words(&f.orientation), vec![&b"a"[..]]);
    assert_eq!(words(&f.angular_velocity), vec![&b"b|ang_vel:c"[..]]);
    let f = split_reading(b"|ang_vel:").unwrap();
    assert_eq!(words(&f.orientation), vec![&b""[..]]);
    assert_eq!(words(&f.angular_velocity), vec![&b""[..]]);
}

#[test]
fn split_reading_without_marker() {
    assert!(split_reading(b"0.1 0.2 0.3 ang_vel:1").is_none());
    assert!(split_reading(b"").is_none());
    assert!(split_reading(b"|ang_vel").is_none());
}
