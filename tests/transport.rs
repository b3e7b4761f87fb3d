use duty::error::Error;
use duty::transport::{Bincode, Json, Transport};

#[test]
fn bincode_frame_is_length_then_payload() {
    let t = Bincode::new(());
    let frame = t.frame(&vec![7, 8, 9]).unwrap();
    assert_eq!(frame, vec![3, 0, 0, 0, 0, 0, 0, 0, 7, 8, 9]);
}

#[test]
fn bincode_frame_of_empty_payload() {
    let t = Bincode::new(());
    assert_eq!(t.frame(&vec![]).unwrap(), vec![0; 8]);
}

#[test]
fn bincode_header_matches_bincode_u64() {
    let t = Bincode::new(());
    let payload = vec![1u8; 300];
    let frame = t.frame(&payload).unwrap();
    assert_eq!(frame[..8].to_vec(), bincode::serialize(&300u64).unwrap());
    assert_eq!(frame[8..].to_vec(), payload);
}

#[test]
fn bincode_round_trip() {
    let mut t = Bincode::new(());
    let payload = b"hello, world".to_vec();
    let frame = t.frame(&payload).unwrap();
    t.feed(&frame);
    assert_eq!(t.take_message(), Some(payload));
    assert_eq!(t.take_message(), None);
}

#[test]
fn bincode_waits_for_whole_message() {
    let mut t = Bincode::new(());
    let frame = t.frame(&vec![1, 2, 3, 4, 5]).unwrap();
    t.feed(&frame[..4]);
    assert_eq!(t.take_message(), None);
    t.feed(&frame[4..10]);
    assert_eq!(t.take_message(), None);
    t.feed(&frame[10..]);
    assert_eq!(t.take_message(), Some(vec![1, 2, 3, 4, 5]));
}

#[test]
fn bincode_messages_in_order_any_chunking() {
    let sender = Bincode::new(());
    let payloads: Vec<Vec<u8>> = vec![vec![1], vec![], vec![2, 3], vec![4, 5, 6, 7]];
    let mut wire = Vec::new();
    for p in &payloads {
        wire.extend(sender.frame(p).unwrap());
    }
    for chunk in 1..wire.len() + 1 {
        let mut receiver = Bincode::new(());
        let mut got = Vec::new();
        for piece in wire.chunks(chunk) {
            receiver.feed(piece);
            while let Some(m) = receiver.take_message() {
                got.push(m);
            }
        }
        assert_eq!(got, payloads);
        assert_eq!(receiver.take_message(), None);
    }
}

#[test]
fn json_frame_ends_with_newline() {
    let t = Json::new(());
    assert_eq!(t.frame(&b"true".to_vec()).unwrap(), b"true\n".to_vec());
}

#[test]
fn json_frame_refuses_line_break() {
    let t = Json::new(());
    assert!(matches!(t.frame(&b"a\nb".to_vec()), Err(Error::MsgSerFailed(_))));
}

#[test]
fn json_messages_in_order() {
    let mut t = Json::new(());
    let a = serde_json::to_vec(&vec![1, 2, 3]).unwrap();
    let b = serde_json::to_vec(&"x y").unwrap();
    let mut wire = t.frame(&a).unwrap();
    wire.extend(t.frame(&b).unwrap());
    t.feed(&wire[..3]);
    assert_eq!(t.take_message(), None);
    t.feed(&wire[3..]);
    assert_eq!(t.take_message(), Some(a));
    assert_eq!(t.take_message(), Some(b));
    assert_eq!(t.take_message(), None);
}

#[test]
fn json_round_trip_of_value() {
    let mut t = Json::new(());
    let payload = serde_json::to_vec(&(42u32, false)).unwrap();
    let frame = t.frame(&payload).unwrap();
    t.feed(&frame);
    let back: (u32, bool) = serde_json::from_slice(&t.take_message().unwrap()).unwrap();
    assert_eq!(back, (42, false));
}

#[test]
fn stream_is_kept() {
    let mut t = Bincode::new(vec![5u8]);
    t.stream_mut().push(6);
    assert_eq!(*t.stream_mut(), vec![5, 6]);
    let mut j = Json::new(1u32);
    *j.stream_mut() += 1;
    assert_eq!(*j.stream_mut(), 2);
}

#[test]
fn json_empty_message() {
    let mut t = Json::new(());
    assert_eq!(t.frame(&vec![]).unwrap(), vec![b'\n']);
    t.feed(b"\n\n");
    assert!(t.has_message());
    assert_eq!(t.take_message(), Some(vec![]));
    assert_eq!(t.take_message(), Some(vec![]));
    assert!(!t.has_message());
    assert_eq!(t.take_message(), None);
}

#[test]
fn has_message_tracks_whole_frames() {
    let mut t = Bincode::new(());
    let frame = t.frame(&vec![1, 2]).unwrap();
    assert!(!t.has_message());
    t.feed(&frame[..9]);
    assert!(!t.has_message());
    t.feed(&frame[9..]);
    assert!(t.has_message());
    assert_eq!(t.take_message(), Some(vec![1, 2]));
    assert!(!t.has_message());
}

#[test]
fn bincode_long_header_waits() {
    let mut t = Bincode::new(());
    t.feed(&[0, 1, 0, 0, 0, 0, 0, 0]);
    t.feed(&vec![7u8; 255]);
    assert_eq!(t.take_message(), None);
    t.feed(&[8]);
    let m = t.take_message().unwrap();
    assert_eq!(m.len(), 256);
    assert_eq!(m[255], 8);
}
