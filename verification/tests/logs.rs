use bytes::Bytes;
use m_cc::config::{Config, WriterConfig};
use m_cc::consumer::ConsumerOffsets;
use m_cc::enums::{Command, OffsetCommand, WriterState};
use m_cc::offsets::{encode_offset_record, OffsetKey};
use m_cc::writer::{failure_state, idle_wait_ms, account_write, batch_has_room, encode_commands, encode_offset_commands, offset_writer_config};

fn frame(msg: &[u8]) -> Vec<u8> {
    let mut v = (msg.len() as u32).to_be_bytes().to_vec();
    v.extend_from_slice(msg);
    v
}

fn b(s: &'static str) -> Bytes {
    Bytes::from_static(s.as_bytes())
}

#[test]
fn consumers_read_independently_and_in_order() {
    let mut log = Vec::new();
    for m in ["m1", "m2", "m3"] {
        log.extend(frame(m.as_bytes()));
    }
    let mut offsets = ConsumerOffsets::new();

    let pos = offsets.position("g1");
    assert_eq!(pos, 0);
    let first = offsets.read_batch("g1", &log[pos..], 2);
    assert_eq!(first, vec![b("m1"), b("m2")]);

    let pos = offsets.position("g1");
    assert_eq!(pos, 12);
    let second = offsets.read_batch("g1", &log[pos..], 2);
    assert_eq!(second, vec![b("m3")]);

    let pos = offsets.position("g1");
    assert_eq!(pos, 18);
    assert!(offsets.read_batch("g1", &log[pos..], 2).is_empty());

    let pos = offsets.position("g2");
    assert_eq!(pos, 0);
    assert_eq!(offsets.read_batch("g2", &log[pos..], 10), vec![b("m1"), b("m2"), b("m3")]);
    assert_eq!(offsets.position("g1"), 18);
}

#[test]
fn a_read_does_not_pass_a_cut_frame() {
    let mut log = frame(b"whole");
    log.extend_from_slice(&[0, 0, 0, 4, b'h']);
    let mut offsets = ConsumerOffsets::new();
    assert_eq!(offsets.read_batch("c", &log, 5), vec![b("whole")]);
    assert_eq!(offsets.position("c"), 9);
    log.extend_from_slice(b"alf");
    assert_eq!(offsets.read_batch("c", &log[9..], 5), vec![b("half")]);
    assert_eq!(offsets.position("c"), 17);
}

#[test]
fn commands_are_written_framed_in_order() {
    let batch = encode_commands(vec![
        Command::Append(vec![b("a"), b("bc")]),
        Command::Append(vec![]),
        Command::Append(vec![b("d")]),
    ]);
    let mut expected = frame(b"a");
    expected.extend(frame(b"bc"));
    expected.extend(frame(b"d"));
    assert_eq!(batch, expected);

    let split = [encode_commands(vec![Command::Append(vec![b("a"), b("bc")])]), encode_commands(vec![Command::Append(vec![b("d")])])].concat();
    assert_eq!(split, expected);
}

#[test]
fn offset_commands_are_written_in_order() {
    let k = OffsetKey { topic: "t".to_string(), group_id: None };
    let r1 = encode_offset_record(&k, 1);
    let r2 = encode_offset_record(&k, 2);
    let mut expected = r1.to_vec();
    expected.extend_from_slice(&r2);
    assert_eq!(encode_offset_commands(vec![OffsetCommand::Append(r1), OffsetCommand::Append(r2)]), expected);
}

#[test]
fn flush_when_bytes_or_time_reach_their_limit() {
    let cfg = WriterConfig { max_batch_commands: 4, flush_bytes: 100, flush_interval_ms: 200 };
    assert_eq!(account_write(&cfg, 10, 20, 5), (false, 30));
    assert_eq!(account_write(&cfg, 90, 10, 5), (true, 0));
    assert_eq!(account_write(&cfg, 0, 1, 200), (true, 0));
    assert_eq!(account_write(&cfg, 0, 0, 199), (false, 0));
}

#[test]
fn batches_hold_at_most_the_configured_commands() {
    let cfg = Config::get_default_values().writer;
    assert!(batch_has_room(0, &cfg));
    assert!(batch_has_room(65535, &cfg));
    assert!(!batch_has_room(65536, &cfg));
}

#[test]
fn offset_writer_limits() {
    let cfg = offset_writer_config();
    assert_eq!(cfg.max_batch_commands, 65536);
    assert_eq!(cfg.flush_bytes, 33554432);
    assert_eq!(cfg.flush_interval_ms, 500);
}

#[test]
fn a_consumer_sees_later_pushes_after_what_it_read() {
    let mut log = encode_commands(vec![Command::Append(vec![b("old1"), b("old2")])]);
    let mut offsets = ConsumerOffsets::new();
    let pos = offsets.position("c");
    assert_eq!(offsets.read_batch("c", &log[pos..], 1), vec![b("old1")]);

    log.extend(encode_commands(vec![Command::Append(vec![b("new1")]), Command::Append(vec![b("new2")])]));
    let pos = offsets.position("c");
    assert_eq!(offsets.read_batch("c", &log[pos..], 10), vec![b("old2"), b("new1"), b("new2")]);
}

#[test]
fn two_reads_equal_one_read_of_both_sizes() {
    let mut log = Vec::new();
    for m in ["a", "bb", "ccc", "dddd"] {
        log.extend(frame(m.as_bytes()));
    }
    let mut split = ConsumerOffsets::new();
    let mut first = split.read_batch("c", &log, 1);
    let pos = split.position("c");
    first.extend(split.read_batch("c", &log[pos..], 2));
    let mut whole = ConsumerOffsets::new();
    assert_eq!(first, whole.read_batch("c", &log, 3));
    assert_eq!(split.position("c"), whole.position("c"));
}

#[test]
fn offset_writer_stops_on_failure() {
    assert!(failure_state(Ok(())).is_none());
    assert!(matches!(failure_state(Err("disk".to_string())), Some(WriterState::Failure(t)) if t == "disk"));
}

#[test]
fn an_idle_writer_flushes_within_the_interval() {
    let cfg = WriterConfig { max_batch_commands: 4, flush_bytes: 100, flush_interval_ms: 200 };
    assert_eq!(idle_wait_ms(&cfg, 0, 50), None);
    assert_eq!(idle_wait_ms(&cfg, 10, 50), Some(150));
    assert_eq!(idle_wait_ms(&cfg, 10, 250), Some(0));
}
