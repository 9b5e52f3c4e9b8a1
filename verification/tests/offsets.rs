use m_cc::api::commit_offset_response;
use m_cc::enums::{AppError, OffsetCommand, WriterState};
use m_cc::offsets::{append_offset, encode_offset_record, finish_append, writer_health, OffsetKey, OffsetTable};
use m_cc::types::CommitOffsetParams;

fn key(topic: &str, group: Option<&str>) -> OffsetKey {
    OffsetKey { topic: topic.to_string(), group_id: group.map(|g| g.to_string()) }
}

#[test]
fn record_layout_with_group() {
    let rec = encode_offset_record(&key("tp", Some("grp")), 0x0102);
    let expected: Vec<u8> = vec![0, 0, 0, 3, b'g', b'r', b'p', 0, 0, 0, 2, b't', b'p', 0, 0, 0, 0, 0, 0, 1, 2];
    assert_eq!(&rec[..], &expected[..]);
}

#[test]
fn record_layout_without_group() {
    let rec = encode_offset_record(&key("é", None), 7);
    let expected: Vec<u8> = vec![0, 0, 0, 0, 0, 0, 0, 2, 0xC3, 0xA9, 0, 0, 0, 0, 0, 0, 0, 7];
    assert_eq!(&rec[..], &expected[..]);
}

#[test]
fn table_keeps_the_latest_offset_per_key() {
    let mut t = OffsetTable::new();
    assert_eq!(t.get(&key("t", None)), None);
    t.insert(key("t", None), 5);
    t.insert(key("t", Some("g")), 9);
    t.insert(key("t", None), 6);
    assert_eq!(t.get(&key("t", None)), Some(6));
    assert_eq!(t.get(&key("t", Some("g"))), Some(9));
    assert_eq!(t.get(&key("u", None)), None);
}

#[test]
fn commit_is_recorded_and_sent() {
    let (tx, rx) = crossbeam::channel::unbounded::<OffsetCommand>();
    let mut t = OffsetTable::new();
    let r = append_offset(&mut t, &WriterState::Healthy, &tx, key("t", Some("g")), 42);
    assert!(r.is_ok());
    assert_eq!(t.get(&key("t", Some("g"))), Some(42));
    match rx.try_recv().unwrap() {
        OffsetCommand::Append(rec) => assert_eq!(rec, encode_offset_record(&key("t", Some("g")), 42)),
    }
}

#[test]
fn commit_after_writer_failure_is_refused() {
    let (tx, rx) = crossbeam::channel::unbounded::<OffsetCommand>();
    let mut t = OffsetTable::new();
    let r = append_offset(&mut t, &WriterState::Failure("disk full".to_string()), &tx, key("t", None), 1);
    match r {
        Err(AppError::WriteError(msg)) => assert_eq!(msg, "disk full"),
        Ok(()) => panic!("refused"),
    }
    assert_eq!(t.get(&key("t", None)), None);
    assert!(rx.try_recv().is_err());
}

#[test]
fn commit_without_writer_fails_to_persist() {
    let (tx, rx) = crossbeam::channel::unbounded::<OffsetCommand>();
    drop(rx);
    let mut t = OffsetTable::new();
    match append_offset(&mut t, &WriterState::Healthy, &tx, key("t", None), 1) {
        Err(AppError::WriteError(msg)) => assert_eq!(msg, "Failed to persist offset"),
        Ok(()) => panic!("refused"),
    }
    assert_eq!(t.get(&key("t", None)), None);
}

#[test]
fn finish_and_health() {
    let mut t = OffsetTable::new();
    assert!(finish_append(&mut t, key("a", None), 3, true).is_ok());
    assert_eq!(t.get(&key("a", None)), Some(3));
    assert!(finish_append(&mut t, key("a", None), 4, false).is_err());
    assert_eq!(t.get(&key("a", None)), Some(3));
    assert!(writer_health(&WriterState::Healthy).is_ok());
    assert!(matches!(writer_health(&WriterState::Failure("x".to_string())), Err(AppError::WriteError(m)) if m == "x"));
}

#[test]
fn commit_responses() {
    assert_eq!(commit_offset_response(Ok(())), (202, "Offset successfully committed".to_string()));
    assert_eq!(commit_offset_response(Err(AppError::WriteError("boom".to_string()))), (500, "boom".to_string()));
}

#[test]
fn commit_params_become_a_key() {
    let params = CommitOffsetParams { topic: "t".to_string(), group_id: Some("g".to_string()), offset: 3 };
    let k: OffsetKey = params.into();
    assert!(k == key("t", Some("g")));
}
