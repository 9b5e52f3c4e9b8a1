use m_cc::loadgen::{count_messages, encode_messages};

#[test]
fn hello_batches() {
    let buf = encode_messages(3);
    assert_eq!(buf.len(), 27);
    assert_eq!(&buf[..9], &[0, 0, 0, 5, b'h', b'e', b'l', b'l', b'o']);
    assert_eq!(count_messages(&buf), 3);
    assert!(encode_messages(0).is_empty());
}

#[test]
fn counting_stops_at_a_cut_frame() {
    let mut buf = encode_messages(2);
    buf.extend_from_slice(&[0, 0, 0, 3, b'x']);
    assert_eq!(count_messages(&buf), 2);
    assert_eq!(count_messages(&[0, 0]), 0);
    assert_eq!(count_messages(&[0, 0, 0, 0]), 1);
}
