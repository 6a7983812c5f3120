use kvs::error::KvsError;
use kvs::index::Index;
use kvs::replay::build_index;
use kvs::store::do_get;
use kvs::writer::PositionedWriter;

fn text(s: &str) -> String {
    s.to_string()
}

const LOG: &[u8] = b"{\"Set\":{\"key\":\"a\",\"value\":\"1\"}}{\"Set\":{\"key\":\"b\",\"value\":\"2\"}}{\"Set\":{\"key\":\"a\",\"value\":\"3\"}}{\"Remove\":{\"key\":\"b\"}}{\"Remove\":{\"key\":\"zz\"}}";

#[test]
fn build_index_on_an_empty_log() {
    let (index, dead) = build_index(b"").unwrap();
    assert_eq!(index.len(), 0);
    assert_eq!(dead, 0);
}

#[test]
fn build_index_leads_each_key_to_its_latest_set() {
    let (index, _) = build_index(LOG).unwrap();
    assert_eq!(index.len(), 1);
    assert_eq!(index.get(&text("a")), Some(62));
    assert_eq!(index.get(&text("b")), None);
    assert_eq!(index.get(&text("zz")), None);
}

#[test]
fn build_index_counts_the_dead_keys() {
    // the second set of a: 1; the remove of b: 2; the remove of zz, which was absent: 1
    let (_, dead) = build_index(LOG).unwrap();
    assert_eq!(dead, 4);
}

#[test]
fn build_index_records_offsets_of_records() {
    let (index, dead) = build_index(&LOG[..62]).unwrap();
    assert_eq!(index.get(&text("a")), Some(0));
    assert_eq!(index.get(&text("b")), Some(31));
    assert_eq!(dead, 0);
}

#[test]
fn build_index_refuses_a_torn_log() {
    assert!(matches!(build_index(&LOG[..61]), Err(KvsError::Serde(_))));
    assert!(matches!(build_index(&LOG[1..]), Err(KvsError::Serde(_))));
    assert!(matches!(build_index(b" "), Err(KvsError::Serde(_))));
}

#[test]
fn do_get_reads_through_the_index() {
    let (index, _) = build_index(LOG).unwrap();
    assert_eq!(do_get(&index, LOG, text("a")).unwrap(), Some(text("3")));
    assert_eq!(do_get(&index, LOG, text("b")).unwrap(), None);
}

#[test]
fn do_get_reports_an_offset_behind_the_log() {
    let mut index = Index::new();
    index.insert(text("a"), LOG.len() as u64);
    assert!(matches!(do_get(&index, LOG, text("a")), Err(KvsError::UnexpectedError(_))));
    index.insert(text("a"), u64::MAX);
    assert!(matches!(do_get(&index, LOG, text("a")), Err(KvsError::UnexpectedError(_))));
}

#[test]
fn do_get_reports_a_record_of_another_key() {
    let mut index = Index::new();
    index.insert(text("b"), 0);
    assert!(matches!(do_get(&index, LOG, text("b")), Err(KvsError::UnexpectedError(_))));
}

#[test]
fn do_get_reports_a_remove_record() {
    let mut index = Index::new();
    index.insert(text("b"), 93);
    assert!(matches!(do_get(&index, LOG, text("b")), Err(KvsError::UnexpectedError(_))));
}

#[test]
fn do_get_reports_bytes_that_are_no_record() {
    let mut index = Index::new();
    index.insert(text("a"), 3);
    assert!(matches!(do_get(&index, LOG, text("a")), Err(KvsError::Serde(_))));
}

#[test]
fn a_writer_tracks_its_position() {
    let mut writer = PositionedWriter::new();
    assert_eq!(writer.offset(), 0);
    assert_eq!(writer.write(b"hello"), 5);
    assert_eq!(writer.offset(), 5);
    assert_eq!(writer.write(b""), 0);
    assert_eq!(writer.write(b", world"), 7);
    assert_eq!(writer.offset(), 12);
    assert_eq!(writer.as_slice(), b"hello, world");
}

#[test]
fn a_resumed_writer_starts_at_the_end() {
    let mut writer = PositionedWriter::resume(b"0123456789".to_vec());
    assert_eq!(writer.offset(), 10);
    assert!(writer.flush().is_empty());
    writer.write(b"ab");
    assert_eq!(writer.offset(), 12);
    assert_eq!(writer.flush(), b"ab".to_vec());
    assert!(writer.flush().is_empty());
    assert_eq!(writer.as_slice(), b"0123456789ab");
}

#[test]
fn a_new_writer_flushes_all_it_wrote() {
    let mut writer = PositionedWriter::new();
    writer.write(b"abc");
    writer.write(b"def");
    assert_eq!(writer.flush(), b"abcdef".to_vec());
    writer.write(b"g");
    assert_eq!(writer.flush(), b"g".to_vec());
}
