use kvs::codec::{decode_command, encode_command, escape_into, unescape};
use kvs::{Command, KvsError};

fn put(k: &str, v: &str) -> Command {
    Command::Put { key: k.to_string(), value: v.to_string() }
}

fn json_field<'a>(v: &'a serde_json::Value, path: &[&str]) -> &'a serde_json::Value {
    let mut cur = v;
    for p in path {
        cur = cur.get(*p).unwrap();
    }
    cur
}

#[test]
fn encodes_set_record() {
    assert_eq!(encode_command(&put("a", "1")), b"{\"Set\":{\"key\":\"a\",\"value\":\"1\"}}\n".to_vec());
}

#[test]
fn encodes_remove_record() {
    let c = Command::Remove { key: "a".to_string() };
    assert_eq!(encode_command(&c), b"{\"Remove\":{\"key\":\"a\"}}\n".to_vec());
}

#[test]
fn escapes_like_json() {
    let mut out = Vec::new();
    escape_into(&mut out, b"a\"b\\c\n\r\t\x08\x0c\x01\x1f\x7f");
    assert_eq!(out, b"a\\\"b\\\\c\\n\\r\\t\\b\\f\\u0001\\u001f\x7f".to_vec());
}

#[test]
fn encoding_matches_serde_json() {
    let key = "k\"\\\n\u{2}\u{e9}";
    let value = "v\u{1F600}\t";
    let bytes = encode_command(&put(key, value));
    assert_eq!(bytes.last(), Some(&b'\n'));
    let parsed: serde_json::Value = serde_json::from_slice(&bytes).unwrap();
    assert_eq!(json_field(&parsed, &["Set", "key"]).as_str(), Some(key));
    assert_eq!(json_field(&parsed, &["Set", "value"]).as_str(), Some(value));
    let expected = format!(
        "{{\"Set\":{{\"key\":{},\"value\":{}}}}}\n",
        serde_json::to_string(key).unwrap(),
        serde_json::to_string(value).unwrap()
    );
    assert_eq!(bytes, expected.into_bytes());
}

#[test]
fn decodes_what_it_encodes() {
    let c = put("key \u{e9}\"", "value\n");
    let bytes = encode_command(&c);
    match decode_command(&bytes) {
        Ok(Command::Put { key, value }) => {
            assert_eq!(key, "key \u{e9}\"");
            assert_eq!(value, "value\n");
        }
        _ => panic!("not decoded"),
    }
}

#[test]
fn decodes_without_newline() {
    match decode_command(b"{\"Remove\":{\"key\":\"x\"}}") {
        Ok(Command::Remove { key }) => assert_eq!(key, "x"),
        _ => panic!("not decoded"),
    }
}

#[test]
fn decodes_unicode_escapes() {
    match decode_command(b"{\"Set\":{\"key\":\"\\u0041\\u00e9\\u20AC\\/\",\"value\":\"\"}}\n") {
        Ok(Command::Put { key, value }) => {
            assert_eq!(key, "A\u{e9}\u{20ac}/");
            assert_eq!(value, "");
        }
        _ => panic!("not decoded"),
    }
}

#[test]
fn rejects_malformed_lines() {
    let bad: [&[u8]; 7] = [
        b"",
        b"{\"Set\":{\"key\":\"a\"}}\n",
        b"{\"Set\":{\"key\":\"a\",\"value\":\"1\"}}x\n",
        b"{\"Remove\":{\"key\":\"a}}\n",
        b"{\"Remove\":{\"key\":\"\\q\"}}\n",
        b"{\"Remove\":{\"key\":\"\\ud800\"}}\n",
        b"{\"Get\":{\"key\":\"a\"}}\n",
    ];
    for line in bad.iter() {
        assert!(matches!(decode_command(line), Err(KvsError::Codec)));
    }
}

#[test]
fn rejects_invalid_utf8() {
    assert!(matches!(
        decode_command(b"{\"Remove\":{\"key\":\"\xff\"}}\n"),
        Err(KvsError::Codec)
    ));
}

#[test]
fn unescape_reports_end() {
    let s = b"ab\\\"c\"rest";
    let (v, end) = unescape(s, 0).unwrap();
    assert_eq!(v, b"ab\"c".to_vec());
    assert_eq!(end, 6);
    assert!(unescape(b"abc", 0).is_none());
}

#[test]
fn decodes_surrogate_pairs() {
    match decode_command(b"{\"Remove\":{\"key\":\"a\\ud83d\\ude00b\"}}\n") {
        Ok(Command::Remove { key }) => assert_eq!(key, "a\u{1F600}b"),
        _ => panic!("not decoded"),
    }
    assert!(matches!(
        decode_command(b"{\"Remove\":{\"key\":\"\\ude00\\ud83d\"}}\n"),
        Err(KvsError::Codec)
    ));
    assert!(matches!(
        decode_command(b"{\"Remove\":{\"key\":\"\\ud83dx\"}}\n"),
        Err(KvsError::Codec)
    ));
}
