use netrecon::codec::DatabaseResult;
use netrecon::text::{bytes_contain, join_nums, split_nums};

fn record(id: &str, ports: Vec<i32>, services: &str) -> DatabaseResult {
    DatabaseResult { id: id.to_string(), ports, services: services.to_string() }
}

#[test]
fn join_nums_keeps_order_and_duplicates() {
    assert_eq!(join_nums(&vec![80, 443, 80], ","), "80,443,80");
    assert_eq!(join_nums(&vec![], ","), "");
    assert_eq!(join_nums(&vec![7], ","), "7");
    assert_eq!(join_nums(&vec![-5, 12], "; "), "-5; 12");
}

#[test]
fn split_nums_reads_fields() {
    assert_eq!(split_nums("80,443,80", ","), vec![80, 443, 80]);
    assert_eq!(split_nums("", ","), Vec::<i32>::new());
    assert_eq!(split_nums("22,x,", ","), vec![22, 0, 0]);
    assert_eq!(split_nums("+9,-3,99999999999", ","), vec![9, -3, 0]);
}

#[test]
fn split_nums_with_longer_or_empty_separator() {
    assert_eq!(split_nums("1; 2;;3", "; "), vec![1, 0]);
    assert_eq!(split_nums("7aa8aaa9", "aa"), vec![7, 8, 0]);
    assert_eq!(split_nums("12", ""), vec![0, 1, 2, 0]);
    assert_eq!(split_nums("5", "55"), vec![5]);
}

#[test]
fn to_string_describes_record() {
    let r = record("1.1.1.1", vec![80, 443], "http");
    assert_eq!(r.to_string(), "1.1.1.1 - ports: [80,443] services: [http]");
    assert_eq!(r.ports_to_string(), "80,443");
}

#[test]
fn encode_writes_layout() {
    let r = record("h", vec![22, 80], "ssh");
    let mut buf = vec![0xAAu8];
    r.encode(&mut buf);
    let expected: Vec<u8> = vec![
        0xAA, 2, 0, 0, 0, 5, 0, 0, 0, b'2', b'2', b',', b'8', b'0', 3, 0, 0, 0, b's', b's', b'h',
    ];
    assert_eq!(buf, expected);
}

#[test]
fn codec_round_trip() {
    let r = record("10.0.0.5", vec![22, 443, 65535], "{\"22\":\"ssh\"} é");
    let mut buf = Vec::new();
    r.encode(&mut buf);
    let d = DatabaseResult::decode("10.0.0.5", &buf).unwrap();
    assert_eq!(d.id, r.id);
    assert_eq!(d.ports, r.ports);
    assert_eq!(d.services, r.services);

    let empty = record("::1", vec![], "");
    let mut buf = Vec::new();
    empty.encode(&mut buf);
    let d = DatabaseResult::decode("::1", &buf).unwrap();
    assert_eq!(d.ports, Vec::<i32>::new());
    assert_eq!(d.services, "");
}

#[test]
fn decode_rejects_malformed() {
    assert!(DatabaseResult::decode("k", &[2, 0, 0]).is_none());
    // one field only
    assert!(DatabaseResult::decode("k", &[1, 0, 0, 0, 1, 0, 0, 0, b'8']).is_none());
    // second length runs past the end
    assert!(DatabaseResult::decode("k", &[2, 0, 0, 0, 1, 0, 0, 0, b'8', 9, 0, 0, 0, b'x']).is_none());
    // missing length prefix
    assert!(DatabaseResult::decode("k", &[2, 0, 0, 0, 0, 0, 0, 0]).is_none());
}

#[test]
fn decode_reads_lossy_text_and_extra_fields() {
    let data = [3u8, 0, 0, 0, 2, 0, 0, 0, b'8', b'0', 2, 0, 0, 0, b'a', 0xFF, 1, 0, 0, 0, b'z'];
    let d = DatabaseResult::decode("key", &data).unwrap();
    assert_eq!(d.id, "key");
    assert_eq!(d.ports, vec![80]);
    assert_eq!(d.services, "a\u{FFFD}");
}

#[test]
fn bytes_contain_is_substring() {
    assert!(bytes_contain(b"8080", b"80"));
    assert!(bytes_contain(b"22,80", b""));
    assert!(!bytes_contain(b"443", b"80"));
    assert!(!bytes_contain(b"4", b"443"));
}
