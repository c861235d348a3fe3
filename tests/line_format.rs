use hippo::utils::line_format::{decode_records, encode_record_line, encode_records, EncodingError, SimpleRecord};

fn record(key: &str, value: &str) -> SimpleRecord {
    SimpleRecord { key: key.to_string(), value: value.to_string() }
}

#[test]
fn line_has_length_prefix_key_and_value() {
    let mut out = Vec::new();
    let r = encode_record_line(&mut out, &record("/etc/app.conf", "/tmp/t1/x"));
    assert!(r.is_ok());
    assert_eq!(out, b"000013/etc/app.conf/tmp/t1/x\n".to_vec());
}

#[test]
fn prefix_counts_bytes_not_characters() {
    let mut out = Vec::new();
    assert!(encode_record_line(&mut out, &record("é", "v")).is_ok());
    assert_eq!(out, "000002év\n".as_bytes().to_vec());
}

#[test]
fn file_ends_with_blank_line() {
    let bytes = encode_records(&vec![record("a", "1"), record("bc", "2")]).ok().unwrap();
    assert_eq!(bytes, b"000001a1\n000002bc2\n\n".to_vec());
}

#[test]
fn empty_file_is_a_single_blank_line() {
    let bytes = encode_records(&vec![]).ok().unwrap();
    assert_eq!(bytes, b"\n".to_vec());
}

#[test]
fn key_of_longest_length_is_written() {
    let key = "k".repeat(999_999);
    let mut out = Vec::new();
    assert!(encode_record_line(&mut out, &record(&key, "v")).is_ok());
    assert_eq!(&out[..6], b"999999");
    assert_eq!(out.len(), 6 + 999_999 + 1 + 1);
}

#[test]
fn key_too_long_is_refused() {
    let key = "k".repeat(1_000_000);
    let mut out = vec![1u8];
    let r = encode_record_line(&mut out, &record(&key, "v"));
    assert_eq!(r, Err(EncodingError::KeyTooLong));
    assert_eq!(out, vec![1u8]);
}

#[test]
fn line_break_is_refused() {
    let mut out = Vec::new();
    assert_eq!(encode_record_line(&mut out, &record("a\nb", "v")), Err(EncodingError::LineBreak));
    assert_eq!(encode_record_line(&mut out, &record("a", "v\n")), Err(EncodingError::LineBreak));
    assert!(out.is_empty());
    assert!(encode_records(&vec![record("a", "1"), record("b", "x\ny")]).is_err());
}

#[test]
fn records_read_back_as_written() {
    let written = vec![record("/etc/app.conf", "/tmp/t1/abc"), record("ключ", "значение"), record("", "")];
    let bytes = encode_records(&written).ok().unwrap();
    let (read, skipped) = decode_records(&bytes);
    assert_eq!(skipped, 0);
    assert_eq!(read.len(), 3);
    for (a, b) in read.iter().zip(written.iter()) {
        assert_eq!(a.key, b.key);
        assert_eq!(a.value, b.value);
    }
}

#[test]
fn malformed_lines_are_skipped_and_counted() {
    let text = b"000003abcvalue\n\nxx\n00000\n999999short\n12345xkey\n000001zq".to_vec();
    let (read, skipped) = decode_records(&text);
    assert_eq!(read.len(), 2);
    assert_eq!(read[0].key, "abc");
    assert_eq!(read[0].value, "value");
    assert_eq!(read[1].key, "z");
    assert_eq!(read[1].value, "q");
    assert_eq!(skipped, 4);
}

#[test]
fn invalid_utf8_line_is_skipped() {
    let text = vec![b'0', b'0', b'0', b'0', b'0', b'1', 0xff, b'v', b'\n'];
    let (read, skipped) = decode_records(&text);
    assert!(read.is_empty());
    assert_eq!(skipped, 1);
}
