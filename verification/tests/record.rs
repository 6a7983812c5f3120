use kvs::error::KvsError;
use kvs::record::{
    append_bytes, decode_record, encode_record, frame_remove, frame_set, matches_at, read_string,
    reads_back, same_command, scan_literal, Command,
};

fn put(key: &str, value: &str) -> Command {
    Command::Put { key: key.to_string(), value: value.to_string() }
}

fn remove(key: &str) -> Command {
    Command::Remove { key: key.to_string() }
}

#[test]
fn frame_set_puts_the_texts_between_the_labels() {
    assert_eq!(
        frame_set(b"\"k\"", b"\"v\""),
        b"{\"Set\":{\"key\":\"k\",\"value\":\"v\"}}".to_vec()
    );
    assert_eq!(frame_set(b"", b""), b"{\"Set\":{\"key\":,\"value\":}}".to_vec());
}

#[test]
fn frame_remove_puts_the_text_behind_the_label() {
    assert_eq!(frame_remove(b"\"k\""), b"{\"Remove\":{\"key\":\"k\"}}".to_vec());
}

#[test]
fn encode_record_writes_compact_json() {
    assert_eq!(
        encode_record(&put("a", "1")).unwrap(),
        b"{\"Set\":{\"key\":\"a\",\"value\":\"1\"}}".to_vec()
    );
    assert_eq!(encode_record(&remove("a")).unwrap(), b"{\"Remove\":{\"key\":\"a\"}}".to_vec());
}

#[test]
fn encode_record_escapes_through_the_serializer() {
    assert_eq!(
        encode_record(&put("say \"hi\"", "back\\slash")).unwrap(),
        b"{\"Set\":{\"key\":\"say \\\"hi\\\"\",\"value\":\"back\\\\slash\"}}".to_vec()
    );
    assert_eq!(
        encode_record(&remove("line\nbreak")).unwrap(),
        b"{\"Remove\":{\"key\":\"line\\nbreak\"}}".to_vec()
    );
}

#[test]
fn decode_record_reads_a_set() {
    let bytes = b"{\"Set\":{\"key\":\"a\",\"value\":\"1\"}}";
    let (command, next) = decode_record(bytes, 0).unwrap();
    assert!(same_command(&command, &put("a", "1")));
    assert_eq!(next, bytes.len());
}

#[test]
fn decode_record_reads_a_remove() {
    let bytes = b"{\"Remove\":{\"key\":\"gone\"}}";
    let (command, next) = decode_record(bytes, 0).unwrap();
    assert!(same_command(&command, &remove("gone")));
    assert_eq!(next, 25);
}

#[test]
fn decode_record_reads_at_an_offset_and_stops_behind_the_record() {
    let bytes = b"{\"Remove\":{\"key\":\"x\"}}{\"Set\":{\"key\":\"k\",\"value\":\"v\"}}{\"Remove\":{\"key\":\"y\"}}";
    let (first, a) = decode_record(bytes, 0).unwrap();
    assert!(same_command(&first, &remove("x")));
    assert_eq!(a, 22);
    let (second, b) = decode_record(bytes, a).unwrap();
    assert!(same_command(&second, &put("k", "v")));
    assert_eq!(b, 22 + 31);
    let (third, c) = decode_record(bytes, b).unwrap();
    assert!(same_command(&third, &remove("y")));
    assert_eq!(c, bytes.len());
}

#[test]
fn decode_record_resolves_escapes_through_the_reader() {
    let bytes = b"{\"Set\":{\"key\":\"q\\\"\\\\\",\"value\":\"\\u00e9\\t\"}}";
    let (command, next) = decode_record(bytes, 0).unwrap();
    assert!(same_command(&command, &put("q\"\\", "\u{e9}\t")));
    assert_eq!(next, bytes.len());
}

#[test]
fn decode_record_refuses_what_is_no_record() {
    let cases: [&[u8]; 10] = [
        b"",
        b"{",
        b"{\"Set\":{\"key\":\"a\",\"value\":\"1\"}",
        b"{\"Set\":{\"key\":\"a\",\"value\":1}}",
        b"{\"Set\":{\"key\":\"a\"}}",
        b"{\"Set\": {\"key\":\"a\",\"value\":\"1\"}}",
        b"{\"Get\":{\"key\":\"a\"}}",
        b"{\"Remove\":{\"key\":\"a\",\"value\":\"1\"}}",
        b"{\"Remove\":{\"key\":\"a}}",
        b"{\"Set\":{\"key\":\"a\x01\",\"value\":\"1\"}}",
    ];
    for bytes in cases {
        assert!(matches!(decode_record(bytes, 0), Err(KvsError::Serde(_))));
    }
}

#[test]
fn decode_record_refuses_an_offset_at_the_end() {
    let bytes = b"{\"Remove\":{\"key\":\"x\"}}";
    assert!(matches!(decode_record(bytes, bytes.len()), Err(KvsError::Serde(_))));
    assert!(matches!(decode_record(bytes, bytes.len() + 5), Err(KvsError::Serde(_))));
    assert!(matches!(decode_record(bytes, 1), Err(KvsError::Serde(_))));
}

#[test]
fn scan_literal_stops_behind_the_closing_quote() {
    assert_eq!(scan_literal(b"\"abc\" rest", 1), Some(5));
    assert_eq!(scan_literal(b"\"\"", 1), Some(2));
    assert_eq!(scan_literal(b"\"a\\\"b\"", 1), Some(6));
    assert_eq!(scan_literal(b"\"a\\\\\"b\"", 1), Some(5));
}

#[test]
fn scan_literal_finds_no_end_in_an_open_literal() {
    assert_eq!(scan_literal(b"\"abc", 1), None);
    assert_eq!(scan_literal(b"\"abc\\\"", 1), None);
    assert_eq!(scan_literal(b"\"abc\\", 1), None);
    assert_eq!(scan_literal(b"", 0), None);
    assert_eq!(scan_literal(b"\"", 7), None);
}

#[test]
fn read_string_reads_one_literal() {
    let (s, end) = read_string(b"xx\"hello\"yy", 2).unwrap();
    assert_eq!(s, "hello");
    assert_eq!(end, 9);
    let (s, end) = read_string(b"\"a\\u0062c\"", 0).unwrap();
    assert_eq!(s, "abc");
    assert_eq!(end, 10);
}

#[test]
fn read_string_wants_an_opening_quote_and_valid_json() {
    assert!(read_string(b"hello\"", 0).is_none());
    assert!(read_string(b"\"hello", 0).is_none());
    assert!(read_string(b"\"bad \\q escape\"", 0).is_none());
    assert!(read_string(b"\"\xff\"", 0).is_none());
    assert!(read_string(b"\"x\"", 3).is_none());
}

#[test]
fn matches_at_compares_in_place() {
    assert!(matches_at(b"hello world", 6, b"world"));
    assert!(matches_at(b"hello world", 0, b"hello"));
    assert!(matches_at(b"hello", 5, b""));
    assert!(!matches_at(b"hello world", 6, b"worlds"));
    assert!(!matches_at(b"hello world", 7, b"world"));
    assert!(!matches_at(b"hello", 6, b""));
    assert!(!matches_at(b"hello", 0, b"help"));
}

#[test]
fn reads_back_wants_exactly_the_command() {
    let bytes = b"{\"Set\":{\"key\":\"a\",\"value\":\"1\"}}";
    assert!(reads_back(bytes, &put("a", "1")));
    assert!(!reads_back(bytes, &put("a", "2")));
    assert!(!reads_back(bytes, &remove("a")));
    assert!(!reads_back(b"{\"Set\":{\"key\":\"a\",\"value\":\"1\"}}x", &put("a", "1")));
    assert!(!reads_back(b"", &put("a", "1")));
}

#[test]
fn same_command_compares_variant_and_strings() {
    assert!(same_command(&put("a", "1"), &put("a", "1")));
    assert!(!same_command(&put("a", "1"), &put("b", "1")));
    assert!(!same_command(&put("a", "1"), &put("a", "")));
    assert!(same_command(&remove("a"), &remove("a")));
    assert!(!same_command(&remove("a"), &remove("b")));
    assert!(!same_command(&remove("a"), &put("a", "")));
}

#[test]
fn append_bytes_extends_the_vector() {
    let mut v = b"ab".to_vec();
    append_bytes(&mut v, b"cd");
    append_bytes(&mut v, b"");
    assert_eq!(v, b"abcd".to_vec());
}

#[test]
fn every_record_is_at_least_eighteen_bytes() {
    assert_eq!(encode_record(&put("", "")).unwrap().len(), 29);
    assert_eq!(encode_record(&remove("")).unwrap().len(), 21);
}
