use wrx::decimal::{format_i32, parse_i32, parse_i8};
use wrx::text::{find_first, is_utf8, remove_byte, split_on};

#[test]
fn utf8_validation_matches_std() {
    let samples: Vec<Vec<u8>> = vec![
        vec![],
        b"hello".to_vec(),
        "héllo wörld €𝄞".as_bytes().to_vec(),
        vec![0xc0, 0x80],
        vec![0xc2, 0x80],
        vec![0xe0, 0x9f, 0x80],
        vec![0xe0, 0xa0, 0x80],
        vec![0xed, 0xa0, 0x80],
        vec![0xed, 0x9f, 0xbf],
        vec![0xf0, 0x8f, 0xbf, 0xbf],
        vec![0xf0, 0x90, 0x80, 0x80],
        vec![0xf4, 0x8f, 0xbf, 0xbf],
        vec![0xf4, 0x90, 0x80, 0x80],
        vec![0xf5, 0x80, 0x80, 0x80],
        vec![0xff],
        vec![0x80],
        vec![0xe2, 0x82],
        vec![b'a', 0xe2, 0x82, 0xac, b'b'],
    ];
    for s in samples {
        assert_eq!(is_utf8(&s), std::str::from_utf8(&s).is_ok(), "{:?}", s);
    }
}

#[test]
fn utf8_exhaustive_two_bytes() {
    for a in 0..=255u8 {
        for b in 0..=255u8 {
            let s = [a, b];
            assert_eq!(is_utf8(&s), std::str::from_utf8(&s).is_ok());
        }
    }
}

#[test]
fn parse_matches_std() {
    let samples = [
        "", "+", "-", "0", "-0", "+0", "007", "127", "128", "-128", "-129", "2147483647",
        "2147483648", "-2147483648", "-2147483649", "99999999999999999999", "1 ", " 1", "1a",
        "+-1", "--1", "12345", "-42",
    ];
    for s in samples {
        assert_eq!(parse_i32(s.as_bytes()), s.parse::<i32>().ok(), "{:?}", s);
        assert_eq!(parse_i8(s.as_bytes()), s.parse::<i8>().ok(), "{:?}", s);
    }
}

#[test]
fn format_matches_display() {
    for v in [0, 1, -1, 9, 10, -10, 99, 100, 12345, i32::MIN, i32::MAX] {
        assert_eq!(format_i32(v), v.to_string().into_bytes());
        assert_eq!(parse_i32(&format_i32(v)), Some(v));
    }
}

#[test]
fn remove_and_split() {
    assert_eq!(remove_byte(b"a\nb\n", b'\n'), b"ab".to_vec());
    assert_eq!(remove_byte(b"", b'\n'), Vec::<u8>::new());
    let pieces = split_on(b" a  b ", b' ');
    let expected: Vec<Vec<u8>> = " a  b ".split(' ').map(|p| p.as_bytes().to_vec()).collect();
    assert_eq!(pieces, expected);
    assert_eq!(split_on(b"", b' '), vec![Vec::<u8>::new()]);
}

#[test]
fn find_first_occurrence() {
    assert_eq!(find_first(b"abcabc", b"bc"), Some(1));
    assert_eq!(find_first(b"abc", b""), Some(0));
    assert_eq!(find_first(b"ab", b"abc"), None);
    assert_eq!(find_first(b"abc", b"d"), None);
}
