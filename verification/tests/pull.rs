use bytes::Bytes;
use m_cc::api::{pull_outcome, pull_request, PullOutcome};
use m_cc::consumer::ConsumerOffsets;
use m_cc::enums::Command;
use m_cc::framing::parse_messages;
use m_cc::types::PullParams;
use m_cc::writer::encode_commands;

fn encode_messages(messages: &[&str]) -> Vec<u8> {
    let mut buf = Vec::new();

    for msg in messages {
        let bytes = msg.as_bytes();
        let len = msg.len() as u32;
        buf.extend_from_slice(&len.to_be_bytes());
        buf.extend_from_slice(bytes);
    }

    buf
}

fn decode_messages(body: &[u8]) -> Vec<String> {
    let mut messages = Vec::new();
    let mut offset = 0;

    while offset + 4 <= body.len() {
        let len = u32::from_be_bytes(body[offset..offset + 4].try_into().unwrap()) as usize;
        offset += 4;

        if offset + len > body.len() {
            break;
        }

        let msg = body[offset..offset + len].to_vec();
        messages.push(String::from_utf8(msg).unwrap());
        offset += len;
    }

    messages
}

/// Pushes `payload` into a log held in memory and pulls up to 10 messages
/// for the default consumer, as the endpoints do.
fn push_then_pull(log: &mut Vec<u8>, offsets: &mut ConsumerOffsets, payload: Vec<u8>) -> Vec<String> {
    let msgs = parse_messages(Bytes::from(payload));
    log.extend_from_slice(&encode_commands(vec![Command::Append(msgs)]));

    let request = pull_request(&PullParams { batch: Some(10), topic: Some("empty-topic".to_string()), consumer_id: None });
    let pos = offsets.position(&request.consumer_id);
    let messages = offsets.read_batch(&request.consumer_id, &log[pos..], request.batch_size);
    match pull_outcome(Some(messages)) {
        PullOutcome::Delivered { body, .. } => decode_messages(&body),
        PullOutcome::NotFound => panic!("topic exists"),
    }
}

#[test]
fn pull_empty_queue_returns_empty_messages() {
    let mut log = Vec::new();
    let mut offsets = ConsumerOffsets::new();
    let parsed = push_then_pull(&mut log, &mut offsets, Vec::new());
    assert!(parsed.is_empty());
}

#[test]
fn pull_returns_messages_after_push() {
    let mut log = Vec::new();
    let mut offsets = ConsumerOffsets::new();
    let parsed = push_then_pull(&mut log, &mut offsets, encode_messages(&["first", "second"]));
    assert_eq!(parsed, vec!["first".to_string(), "second".to_string()]);
}

#[test]
fn pull_of_a_missing_topic_is_not_found() {
    assert!(matches!(pull_outcome(None), PullOutcome::NotFound));
}

#[test]
fn pull_counts_delivered_messages() {
    match pull_outcome(Some(vec![Bytes::from_static(b"x"), Bytes::from_static(b"yz")])) {
        PullOutcome::Delivered { count, body } => {
            assert_eq!(count, 2);
            assert_eq!(&body[..], &[0, 0, 0, 1, b'x', 0, 0, 0, 2, b'y', b'z'][..]);
        }
        PullOutcome::NotFound => panic!("topic exists"),
    }
}

#[test]
fn pull_request_defaults_and_caps_the_batch() {
    let r = pull_request(&PullParams { batch: None, topic: None, consumer_id: None });
    assert_eq!(r.topic, "default");
    assert_eq!(r.consumer_id, "default");
    assert_eq!(r.batch_size, 100);

    let r = pull_request(&PullParams {
        batch: Some(5000),
        topic: Some("t".to_string()),
        consumer_id: Some("group-1".to_string()),
    });
    assert_eq!(r.topic, "t");
    assert_eq!(r.consumer_id, "group-1");
    assert_eq!(r.batch_size, 1000);

    let r = pull_request(&PullParams { batch: Some(1000), topic: None, consumer_id: None });
    assert_eq!(r.batch_size, 1000);
    let r = pull_request(&PullParams { batch: Some(7), topic: None, consumer_id: None });
    assert_eq!(r.batch_size, 7);
}
