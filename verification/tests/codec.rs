use segstore::codec::{fmt_usize, format_record, parse_record, parse_usize};

#[test]
fn decimal_formatting_is_exact() {
    assert_eq!(fmt_usize(0), b"0".to_vec());
    assert_eq!(fmt_usize(7), b"7".to_vec());
    assert_eq!(fmt_usize(10), b"10".to_vec());
    assert_eq!(fmt_usize(4096), b"4096".to_vec());
    assert_eq!(fmt_usize(usize::MAX), usize::MAX.to_string().into_bytes());
}

#[test]
fn decimal_parsing_is_exact() {
    assert_eq!(parse_usize(b"0"), Some(0));
    assert_eq!(parse_usize(b"42"), Some(42));
    assert_eq!(parse_usize(b"007"), Some(7));
    assert_eq!(parse_usize(b""), None);
    assert_eq!(parse_usize(b"4a2"), None);
    assert_eq!(parse_usize(b"-1"), None);
    assert_eq!(parse_usize(b"99999999999999999999999999"), None);
}

#[test]
fn records_encode_as_single_comma_separated_lines() {
    assert_eq!(format_record(b"hello", 0, 3), b"hello,0,3".to_vec());
    assert_eq!(format_record(b"a", 4096, 17), b"a,4096,17".to_vec());
    assert_eq!(format_record(b"", 1, 2), b",1,2".to_vec());
}

#[test]
fn records_decode_to_their_fields() {
    let (term, offset, size) = parse_record(b"hello,0,3").unwrap();
    assert_eq!(term, b"hello".to_vec());
    assert_eq!(offset, 0);
    assert_eq!(size, 3);
    let (term, offset, size) = parse_record(b"a,4096,17").unwrap();
    assert_eq!(term, b"a".to_vec());
    assert_eq!(offset, 4096);
    assert_eq!(size, 17);
}

#[test]
fn malformed_records_do_not_decode() {
    assert_eq!(parse_record(b""), None);
    assert_eq!(parse_record(b"no commas here"), None);
    assert_eq!(parse_record(b"one,1"), None);
    assert_eq!(parse_record(b"too,1,2,3"), None);
    assert_eq!(parse_record(b"bad,x,2"), None);
    assert_eq!(parse_record(b"bad,1,"), None);
    assert_eq!(parse_record(b"bad,,2"), None);
    assert_eq!(parse_record(b"big,99999999999999999999999999,2"), None);
}

#[test]
fn every_record_round_trips() {
    let cases: [(&[u8], usize, usize); 4] =
        [(b"a", 0, 3), (b"hello", 4096, 1), (b"x9_z", usize::MAX, usize::MAX), (b"", 12, 34)];
    for (term, offset, size) in cases {
        let line = format_record(term, offset, size);
        let (t2, o2, s2) = parse_record(&line).unwrap();
        assert_eq!(t2, term.to_vec());
        assert_eq!(o2, offset);
        assert_eq!(s2, size);
    }
}
