use onebrc::{extract_records, parse_tenths, Error};

#[test]
fn parse_simple_values() {
    assert_eq!(parse_tenths(b"-13.7"), Some(-137));
    assert_eq!(parse_tenths(b"2.7"), Some(27));
    assert_eq!(parse_tenths(b"0.0"), Some(0));
    assert_eq!(parse_tenths(b"-0.1"), Some(-1));
    assert_eq!(parse_tenths(b"+3.5"), Some(35));
    assert_eq!(parse_tenths(b"42"), Some(420));
    assert_eq!(parse_tenths(b"-7"), Some(-70));
    assert_eq!(parse_tenths(b"007.5"), Some(75));
}

#[test]
fn parse_rejects_malformed_values() {
    assert_eq!(parse_tenths(b""), None);
    assert_eq!(parse_tenths(b"-"), None);
    assert_eq!(parse_tenths(b"+"), None);
    assert_eq!(parse_tenths(b"."), None);
    assert_eq!(parse_tenths(b".5"), None);
    assert_eq!(parse_tenths(b"3."), None);
    assert_eq!(parse_tenths(b"2.75"), None);
    assert_eq!(parse_tenths(b"1e3"), None);
    assert_eq!(parse_tenths(b"12a"), None);
    assert_eq!(parse_tenths(b"--1.0"), None);
    assert_eq!(parse_tenths(b"1 .0"), None);
}

#[test]
fn parse_extreme_magnitudes() {
    // i64::MAX tenths is the largest representable magnitude.
    assert_eq!(parse_tenths(b"922337203685477580.7"), Some(i64::MAX));
    assert_eq!(parse_tenths(b"-922337203685477580.7"), Some(-i64::MAX));
    assert_eq!(parse_tenths(b"922337203685477580.8"), None);
    assert_eq!(parse_tenths(b"99999999999999999999999999999999.9"), None);
}

#[test]
fn extract_records_from_block() {
    let block = b"Ranst;-13.7\nRanst;2.7\nLonghua;-5.3\n";
    let pairs = extract_records(block).unwrap();
    assert_eq!(pairs.len(), 3);
    assert_eq!(pairs[0], (b"Ranst".to_vec(), -137));
    assert_eq!(pairs[1], (b"Ranst".to_vec(), 27));
    assert_eq!(pairs[2], (b"Longhua".to_vec(), -53));
}

#[test]
fn extract_handles_unterminated_final_record() {
    let pairs = extract_records(b"a;1.0\nb;2.0").unwrap();
    assert_eq!(pairs.len(), 2);
    assert_eq!(pairs[1], (b"b".to_vec(), 20));
}

#[test]
fn extract_key_may_contain_delimiter() {
    // The value starts after the last delimiter of the record.
    let pairs = extract_records(b"a;b;1.5\n").unwrap();
    assert_eq!(pairs.len(), 1);
    assert_eq!(pairs[0], (b"a;b".to_vec(), 15));
}

#[test]
fn extract_empty_block_holds_no_records() {
    let pairs = extract_records(b"").unwrap();
    assert_eq!(pairs.len(), 0);
}

#[test]
fn record_without_delimiter_is_fatal() {
    // A silently dropped row would corrupt the statistics; the block
    // must be rejected instead.
    assert_eq!(extract_records(b"NoDelimiterHere\n"), Err(Error::MalformedRecord));
    assert_eq!(
        extract_records(b"good;1.0\nbad record\ngood;2.0\n"),
        Err(Error::MalformedRecord)
    );
    // An empty line is a record without a delimiter.
    assert_eq!(extract_records(b"a;1.0\n\nb;2.0\n"), Err(Error::MalformedRecord));
}

#[test]
fn unparsable_value_is_fatal() {
    assert_eq!(extract_records(b"key;notanumber\n"), Err(Error::InvalidNumber));
    assert_eq!(extract_records(b"key;1.23\n"), Err(Error::InvalidNumber));
    assert_eq!(extract_records(b"key;\n"), Err(Error::InvalidNumber));
}

#[test]
fn first_error_wins() {
    // The malformed record comes before the invalid number.
    assert_eq!(
        extract_records(b"nodelim\nkey;bad\n"),
        Err(Error::MalformedRecord)
    );
    assert_eq!(
        extract_records(b"key;bad\nnodelim\n"),
        Err(Error::InvalidNumber)
    );
}
