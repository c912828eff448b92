use beggar::hash::{hex, md5_hex};
use beggar::json::{metadata_from_string, metadata_to_string};
use beggar::strings::{str_contains, str_lex_lt, u64_to_dec};
use beggar::strmap::StrMap;
use beggar::types::{access_key_from_creds, Credentials};

#[test]
fn test_metadata_to_string() {
    let metadata_string = "{\"hello\":\"world\"}";
    let metadata = metadata_from_string(metadata_string);
    let mut expected_metadata = StrMap::new();
    expected_metadata.insert("hello".to_string(), "world".to_string());
    assert_eq!(metadata, expected_metadata);

    let metadata_string = "";
    let metadata = metadata_from_string(metadata_string);
    assert_eq!(metadata, StrMap::new());
}

#[test]
fn test_access_key_from_creds() {
    let creds = Some(Credentials {
        access_key: "test_access_key".to_string(),
        secret_key: "test_secret_key".to_string(),
    });
    let access_key = access_key_from_creds(creds.as_ref());
    assert_eq!(access_key, Some("test_access_key"));

    let access_key = access_key_from_creds(None);
    assert_eq!(access_key, None);
}

#[test]
fn metadata_round_trip_plain() {
    let mut m = StrMap::new();
    m.insert("alpha".to_string(), "one".to_string());
    m.insert("beta".to_string(), "two".to_string());
    let s = metadata_to_string(Some(&m));
    assert_eq!(s, "{\"alpha\":\"one\",\"beta\":\"two\"}");
    let back = metadata_from_string(&s);
    assert_eq!(back, m);
}

#[test]
fn metadata_round_trip_escapes() {
    let mut m = StrMap::new();
    m.insert("qu\"ote".to_string(), "back\\slash".to_string());
    m.insert("ctl".to_string(), "a\nb\tc\u{0001}d".to_string());
    m.insert("uni".to_string(), "héllo δ".to_string());
    let s = metadata_to_string(Some(&m));
    let back = metadata_from_string(&s);
    assert_eq!(back, m);
}

#[test]
fn metadata_none_serializes_empty() {
    assert_eq!(metadata_to_string(None), "{}");
    let back = metadata_from_string("{}");
    assert_eq!(back, StrMap::new());
}

#[test]
fn metadata_parser_accepts_whitespace() {
    let m = metadata_from_string("{ \"a\" : \"b\" ,\n \"c\" : \"d\" }");
    assert_eq!(m.get("a"), Some(&"b".to_string()));
    assert_eq!(m.get("c"), Some(&"d".to_string()));
    assert_eq!(m.len(), 2);
}

#[test]
fn metadata_parser_decodes_escapes() {
    let m = metadata_from_string("{\"k\":\"\\u0041\\n\\\\\\\"\"}");
    assert_eq!(m.get("k"), Some(&"A\n\\\"".to_string()));
}

#[test]
fn metadata_parser_rejects_garbage() {
    assert_eq!(metadata_from_string("not json"), StrMap::new());
    assert_eq!(metadata_from_string("{\"a\":1}"), StrMap::new());
    assert_eq!(metadata_from_string("{\"a\":\"b\""), StrMap::new());
}

#[test]
fn md5_hex_known_values() {
    assert_eq!(md5_hex(b"hello"), "5d41402abc4b2a76b9719d911017c592");
    assert_eq!(md5_hex(b""), "d41d8cd98f00b204e9800998ecf8427e");
    assert_eq!(md5_hex(b"test content"), "9473fdd0d880a43c21b7778d34872157");
}

#[test]
fn hex_encodes_lowercase() {
    assert_eq!(hex(&[0x00, 0xff, 0x1a]), "00ff1a");
    assert_eq!(hex(&[]), "");
}

#[test]
fn decimal_formatting() {
    assert_eq!(u64_to_dec(0), "0");
    assert_eq!(u64_to_dec(7), "7");
    assert_eq!(u64_to_dec(1024), "1024");
    assert_eq!(u64_to_dec(u64::MAX), "18446744073709551615");
}

#[test]
fn lexicographic_order() {
    assert!(str_lex_lt("a", "b"));
    assert!(str_lex_lt("a", "ab"));
    assert!(!str_lex_lt("b", "ab"));
    assert!(!str_lex_lt("a", "a"));
}

#[test]
fn substring_search() {
    assert!(str_contains("abc../def", "../"));
    assert!(!str_contains("abc./def", "../"));
    assert!(str_contains("//", "//"));
}
