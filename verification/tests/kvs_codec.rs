use kvs_broadcast::kvs::codec::{decode_record, encode_record, frame_texts, Decoded};
use kvs_broadcast::kvs::log::LogEntry;

fn entry(key: &str, value: &str) -> LogEntry {
    LogEntry { key: key.to_string(), value: value.to_string() }
}

fn found(bytes: &[u8]) -> Option<(String, String, usize)> {
    match decode_record(bytes) {
        Decoded::Entry { entry, len } => Some((entry.key, entry.value, len)),
        _ => None,
    }
}

#[test]
fn a_record_is_a_json_object() {
    let bytes = encode_record(&entry("a", "1")).unwrap();
    assert_eq!(bytes, br#"{"key":"a","value":"1"}"#.to_vec());
    let bytes = encode_record(&entry("q\"\\", "\u{1}\n\u{e9}\u{1F600}")).unwrap();
    assert_eq!(
        String::from_utf8(bytes).unwrap(),
        "{\"key\":\"q\\\"\\\\\",\"value\":\"\\u0001\\n\u{e9}\u{1F600}\"}"
    );
}

#[test]
fn frames_are_braces_colons_and_a_comma() {
    let framed = frame_texts(b"N".to_vec(), b"K".to_vec(), b"L".to_vec(), b"V".to_vec());
    assert_eq!(framed, b"{N:K,L:V}".to_vec());
}

#[test]
fn a_record_reads_the_same_whatever_follows_it() {
    let samples = [
        ("", ""),
        ("a", "1"),
        ("key", "value"),
        ("sp ace", "tab\there"),
        ("quote\"", "back\\slash"),
        ("\u{0}", "\u{1f}"),
        ("\u{e9}", "\u{4e2d}\u{6587}"),
        ("\u{1F600}", "}{\":,"),
        ("__tombstone__", "__tombstone__"),
    ];
    let tails: [&[u8]; 7] = [b"", b"{", b"}", b"\"", b"\\", b"   ", br#"{"key":"x","value":"y"}"#];
    for (key, value) in samples {
        let bytes = encode_record(&entry(key, value)).unwrap();
        for tail in tails {
            let mut longer = bytes.clone();
            longer.extend_from_slice(tail);
            assert_eq!(
                found(&longer),
                Some((key.to_string(), value.to_string(), bytes.len())),
                "{:?} {:?}",
                key,
                tail
            );
        }
        for cut in 0..bytes.len() {
            assert_eq!(found(&bytes[..cut]), None, "{:?} cut at {}", key, cut);
        }
    }
}

#[test]
fn what_is_read_is_read_again_from_its_own_bytes() {
    let logs: [&[u8]; 5] = [
        br#"{"key":"a","value":"1"}rest"#,
        br#"{ "key": "a","value":  "A\n"}{"#,
        b"{\n\"key\":\"k\",\"value\":\"v\"}\"",
        "{\"key\":\"key\",\"value\":\"\u{1F600}\"}}".as_bytes(),
        br#"{"key":"","value":""}"#,
    ];
    for log in logs {
        let (key, value, len) = found(log).unwrap();
        assert!(0 < len && len <= log.len());
        for tail in [&b""[..], b"x", b"{\"", b"\"\"\""] {
            let mut again = log[..len].to_vec();
            again.extend_from_slice(tail);
            assert_eq!(found(&again), Some((key.clone(), value.clone(), len)));
        }
    }
}

#[test]
fn ends_and_breaks() {
    assert!(matches!(decode_record(b""), Decoded::End));
    for bad in [
        &b" "[..],
        b"\n",
        b"x",
        b"[",
        br#"{"key" :"a","value":"1"}"#,
        br#"{"key":"a" ,"value":"1"}"#,
        br#"{"key":"a","value":"1" }"#,
        br#"{"Key":"a","value":"1"}"#,
        br#"{"key":"a","val":"1"}"#,
        br#"{"key":1,"value":"1"}"#,
        br#"{"key":"a","value":null}"#,
        b"{\"key\":\"a\",\"value\":\"\xff\"}",
        b"{\"key\":\"a\",\"value\":\"\x01\"}",
    ] {
        assert!(matches!(decode_record(bad), Decoded::Broken(_)), "{:?}", bad);
    }
}
