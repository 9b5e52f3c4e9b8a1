use bytes::Bytes;
use m_cc::api::push_topic;
use m_cc::enums::Command;
use m_cc::framing::parse_messages;
use m_cc::types::PushParams;
use m_cc::writer::append_batch;

fn encode_messages(messages: &[&str]) -> Vec<u8> {
    let mut buf = Vec::new();

    for msg in messages {
        let bytes = msg.as_bytes();
        let len = msg.len() as u32;
        buf.extend_from_slice(&len.to_be_bytes());
        buf.extend_from_slice(bytes);
    }

    buf
}

#[test]
fn push_returns_accepted_count_and_forwards_messages() {
    let payload = encode_messages(&["a", "b"]);
    let msgs = parse_messages(Bytes::from(payload));
    let (tx, rx) = crossbeam::channel::unbounded::<Command>();

    let accepted = append_batch(&tx, msgs).unwrap();
    assert_eq!(accepted, 2);

    match rx.try_recv().unwrap() {
        Command::Append(forwarded) => {
            assert_eq!(forwarded, vec![Bytes::from_static(b"a"), Bytes::from_static(b"b")]);
        }
    }
}

#[test]
fn push_empty_messages_returns_zero() {
    let payload = encode_messages(&[]);
    let msgs = parse_messages(Bytes::from(payload));
    let (tx, _rx) = crossbeam::channel::unbounded::<Command>();

    let accepted = append_batch(&tx, msgs).unwrap();
    assert_eq!(accepted, 0);
}

#[test]
fn push_to_a_closed_writer_is_refused() {
    let (tx, rx) = crossbeam::channel::unbounded::<Command>();
    drop(rx);
    assert_eq!(append_batch(&tx, vec![Bytes::from_static(b"x")]), None);
}

#[test]
fn push_topic_defaults_to_default() {
    assert_eq!(push_topic(&PushParams { topic: None }), "default");
    assert_eq!(push_topic(&PushParams { topic: Some("test".to_string()) }), "test");
}

#[test]
fn the_append_command_carries_the_messages() {
    match m_cc::writer::append_command(vec![Bytes::from_static(b"p"), Bytes::from_static(b"q")]) {
        Command::Append(msgs) => assert_eq!(msgs, vec![Bytes::from_static(b"p"), Bytes::from_static(b"q")]),
    }
}
