use bytes::Bytes;
use m_cc::framing::{encode_messages, parse_messages, push_frame, read_frames};

fn frame(msg: &[u8]) -> Vec<u8> {
    let mut v = (msg.len() as u32).to_be_bytes().to_vec();
    v.extend_from_slice(msg);
    v
}

#[test]
fn parse_splits_frames_in_order() {
    let mut body = frame(b"hello");
    body.extend(frame(b""));
    body.extend(frame(b"world!"));
    let msgs = parse_messages(Bytes::from(body));
    assert_eq!(msgs, vec![Bytes::from_static(b"hello"), Bytes::from_static(b""), Bytes::from_static(b"world!")]);
}

#[test]
fn parse_stops_at_a_cut_frame() {
    let mut body = frame(b"ok");
    body.extend_from_slice(&[0, 0, 0, 9, b'a', b'b']);
    let msgs = parse_messages(Bytes::from(body.clone()));
    assert_eq!(msgs, vec![Bytes::from_static(b"ok")]);
    // A length that runs past the end takes the following bytes with it.
    body.extend(frame(b"next"));
    let msgs = parse_messages(Bytes::from(body));
    assert_eq!(msgs, vec![Bytes::from_static(b"ok"), Bytes::from_static(b"ab\0\0\0\x04nex")]);
}

#[test]
fn parse_ignores_a_short_header() {
    let mut body = frame(b"ok");
    body.extend_from_slice(&[0, 0]);
    assert_eq!(parse_messages(Bytes::from(body)), vec![Bytes::from_static(b"ok")]);
    assert!(parse_messages(Bytes::new()).is_empty());
}

#[test]
fn big_endian_lengths_are_read() {
    let msg = vec![7u8; 0x0102];
    let body = frame(&msg);
    assert_eq!(&body[..4], &[0, 0, 1, 2]);
    let msgs = parse_messages(Bytes::from(body));
    assert_eq!(msgs.len(), 1);
    assert_eq!(msgs[0].len(), 0x0102);
}

#[test]
fn encode_frames_each_message() {
    let out = encode_messages(vec![Bytes::from_static(b"ab"), Bytes::from_static(b"c")]);
    assert_eq!(&out[..], &[0, 0, 0, 2, b'a', b'b', 0, 0, 0, 1, b'c'][..]);
    assert!(encode_messages(Vec::new()).is_empty());
}

#[test]
fn encode_then_parse_gives_the_messages_back() {
    let msgs = vec![Bytes::from_static(b"first"), Bytes::from_static(b""), Bytes::from(vec![1u8; 300])];
    let encoded = encode_messages(msgs.clone());
    assert_eq!(parse_messages(encoded), msgs);
}

#[test]
fn push_frame_appends_length_and_bytes() {
    let mut buf = vec![9u8];
    push_frame(&mut buf, b"xyz");
    assert_eq!(buf, vec![9, 0, 0, 0, 3, b'x', b'y', b'z']);
}

#[test]
fn read_frames_takes_at_most_max() {
    let mut data = frame(b"a");
    data.extend(frame(b"bb"));
    data.extend(frame(b"ccc"));
    let (msgs, consumed) = read_frames(&data, 2);
    assert_eq!(msgs, vec![Bytes::from_static(b"a"), Bytes::from_static(b"bb")]);
    assert_eq!(consumed, 5 + 6);
    let (rest, consumed2) = read_frames(&data[consumed..], 10);
    assert_eq!(rest, vec![Bytes::from_static(b"ccc")]);
    assert_eq!(consumed2, 7);
}

#[test]
fn read_frames_leaves_a_cut_frame() {
    let mut data = frame(b"a");
    data.extend_from_slice(&[0, 0, 0, 5, 1, 2]);
    let (msgs, consumed) = read_frames(&data, 10);
    assert_eq!(msgs, vec![Bytes::from_static(b"a")]);
    assert_eq!(consumed, 5);
    let (none, zero) = read_frames(&data, 0);
    assert!(none.is_empty());
    assert_eq!(zero, 0);
}
