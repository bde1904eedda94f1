// The wire codec: tag-and-payload layout, framing, the round trip on
// every variant, and rejection of bytes that encode no message.

use bfs_tree::message::{decode_message, encode_message, frame_message, frame_len, Message};

fn round_trip(m: Message) {
    let bytes = encode_message(m);
    assert_eq!(decode_message(&bytes), Some(m));
}

#[test]
fn round_trip_every_variant() {
    round_trip(Message::Search(0, 1));
    round_trip(Message::Search(7, 9));
    round_trip(Message::Search(-1, i32::MAX));
    round_trip(Message::Search(i32::MIN, i32::MAX));
    round_trip(Message::Ack);
    round_trip(Message::Reject);
    round_trip(Message::NewPhase(0));
    round_trip(Message::NewPhase(-3));
    round_trip(Message::NewPhase(i32::MAX));
    round_trip(Message::PhaseComplete(true));
    round_trip(Message::PhaseComplete(false));
    round_trip(Message::Terminate);
    round_trip(Message::Connect(1));
    round_trip(Message::Connect(-42));
    round_trip(Message::Connect(i32::MIN));
}

#[test]
fn encoding_layout_is_tag_then_little_endian_payload() {
    assert_eq!(
        encode_message(Message::Search(1, 2)),
        vec![0u8, 1, 0, 0, 0, 2, 0, 0, 0]
    );
    assert_eq!(encode_message(Message::Ack), vec![1u8]);
    assert_eq!(encode_message(Message::Reject), vec![2u8]);
    assert_eq!(encode_message(Message::NewPhase(258)), vec![3u8, 2, 1, 0, 0]);
    assert_eq!(encode_message(Message::PhaseComplete(true)), vec![4u8, 1]);
    assert_eq!(encode_message(Message::PhaseComplete(false)), vec![4u8, 0]);
    assert_eq!(encode_message(Message::Terminate), vec![5u8]);
    assert_eq!(
        encode_message(Message::Connect(-1)),
        vec![6u8, 255, 255, 255, 255]
    );
}

#[test]
fn frame_is_length_prefixed() {
    let frame = frame_message(Message::Search(1, 2));
    assert_eq!(&frame[0..4], &[9u8, 0, 0, 0], "payload length, little endian");
    assert_eq!(frame_len(&frame[0..4]), 9);
    assert_eq!(decode_message(&frame[4..].to_vec()), Some(Message::Search(1, 2)));

    let frame = frame_message(Message::Ack);
    assert_eq!(frame, vec![1u8, 0, 0, 0, 1]);
}

#[test]
fn corrupt_bytes_decode_to_nothing() {
    assert_eq!(decode_message(&vec![]), None);
    assert_eq!(decode_message(&vec![7u8]), None, "unknown tag");
    assert_eq!(decode_message(&vec![0u8, 1, 0, 0, 0]), None, "truncated Search");
    assert_eq!(decode_message(&vec![1u8, 0]), None, "trailing byte after Ack");
    assert_eq!(decode_message(&vec![4u8]), None, "missing PhaseComplete payload");
    assert_eq!(decode_message(&vec![4u8, 2]), None, "PhaseComplete payload is not a bool");
    assert_eq!(decode_message(&vec![3u8, 1, 0, 0]), None, "short NewPhase payload");
    assert_eq!(decode_message(&vec![6u8, 1, 0, 0, 0, 0]), None, "long Connect payload");
}
