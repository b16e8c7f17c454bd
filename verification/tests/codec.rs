use smsg_gateway::codec::{TwoByteLenSkipReserved, FrameError, MAX_FRAME_SIZE};

fn frame(payload: &[u8]) -> Vec<u8> {
    let mut f = vec![0xffu8, 0xff];
    f.push((payload.len() / 256) as u8);
    f.push((payload.len() % 256) as u8);
    f.push(0);
    f.push(0);
    f.extend_from_slice(payload);
    f
}

#[test]
fn frame_round_trip() {
    let codec = TwoByteLenSkipReserved::new(MAX_FRAME_SIZE);
    let payload: Vec<u8> = vec![1, 2, 3];
    let mut buf: Vec<u8> = Vec::new();
    codec.encode(&payload, &mut buf).unwrap();
    assert_eq!(buf, vec![0xff, 0xff, 0, 3, 0, 0, 1, 2, 3]);
    let got = codec.decode(&mut buf).unwrap().unwrap();
    assert_eq!(got, vec![1, 2, 3]);
    assert!(buf.is_empty());
}

#[test]
fn frame_round_trip_empty_payload() {
    let codec = TwoByteLenSkipReserved::new(MAX_FRAME_SIZE);
    let payload: Vec<u8> = Vec::new();
    let mut buf: Vec<u8> = Vec::new();
    codec.encode(&payload, &mut buf).unwrap();
    assert_eq!(buf, vec![0xff, 0xff, 0, 0, 0, 0]);
    let got = codec.decode(&mut buf).unwrap().unwrap();
    assert!(got.is_empty());
    assert!(buf.is_empty());
}

#[test]
fn frame_round_trip_largest_payload() {
    let codec = TwoByteLenSkipReserved::new(MAX_FRAME_SIZE);
    let payload: Vec<u8> = vec![7u8; 65535];
    let mut buf: Vec<u8> = Vec::new();
    codec.encode(&payload, &mut buf).unwrap();
    assert_eq!(buf.len(), 6 + 65535);
    assert_eq!(&buf[..6], &[0xff, 0xff, 0xff, 0xff, 0, 0]);
    let got = codec.decode(&mut buf).unwrap().unwrap();
    assert_eq!(got, payload);
    assert!(buf.is_empty());
}

#[test]
fn decode_consumes_exactly_one_frame() {
    let codec = TwoByteLenSkipReserved::new(MAX_FRAME_SIZE);
    let mut buf = frame(b"abc");
    buf.extend_from_slice(&frame(b"de"));
    let first = codec.decode(&mut buf).unwrap().unwrap();
    assert_eq!(first, b"abc".to_vec());
    assert_eq!(buf, frame(b"de"));
    let second = codec.decode(&mut buf).unwrap().unwrap();
    assert_eq!(second, b"de".to_vec());
    assert!(buf.is_empty());
}

#[test]
fn partial_delivery_yields_nothing_until_whole_frame() {
    let codec = TwoByteLenSkipReserved::new(MAX_FRAME_SIZE);
    let whole = frame(b"hello");
    let mut buf: Vec<u8> = Vec::new();
    for (i, byte) in whole.iter().enumerate() {
        buf.push(*byte);
        let step = codec.decode(&mut buf).unwrap();
        if i + 1 < whole.len() {
            assert!(step.is_none());
            assert_eq!(buf.len(), i + 1);
        } else {
            assert_eq!(step.unwrap(), b"hello".to_vec());
            assert!(buf.is_empty());
        }
    }
}

#[test]
fn reserved_bytes_are_ignored_on_read() {
    let codec = TwoByteLenSkipReserved::new(MAX_FRAME_SIZE);
    let mut buf: Vec<u8> = vec![0xff, 0xff, 0, 2, 0xab, 0xcd, 5, 6];
    let got = codec.decode(&mut buf).unwrap().unwrap();
    assert_eq!(got, vec![5, 6]);
    assert!(buf.is_empty());
}

#[test]
fn decode_without_marker_waits() {
    let codec = TwoByteLenSkipReserved::new(MAX_FRAME_SIZE);
    let mut buf: Vec<u8> = vec![0x00, 0xff, 0x00, 0x01, 0, 0, 9];
    let before = buf.clone();
    assert!(codec.decode(&mut buf).unwrap().is_none());
    assert_eq!(buf, before);
}

#[test]
fn decode_oversize_declared_length_fails() {
    let codec = TwoByteLenSkipReserved::new(8);
    // Declared length 9 exceeds the cap of 8; the error comes before the
    // payload bytes have even arrived.
    let mut buf: Vec<u8> = vec![0xff, 0xff, 0x00, 0x09];
    match codec.decode(&mut buf) {
        Err(FrameError::Oversize { len, max }) => {
            assert_eq!(len, 9);
            assert_eq!(max, 8);
        },
        other => panic!("expected oversize error, got {:?}", other.is_ok()),
    }
    assert_eq!(buf, vec![0xff, 0xff, 0x00, 0x09]);
}

#[test]
fn encode_oversize_payload_fails() {
    let codec = TwoByteLenSkipReserved::new(4);
    let payload: Vec<u8> = vec![0u8; 5];
    let mut buf: Vec<u8> = Vec::new();
    match codec.encode(&payload, &mut buf) {
        Err(FrameError::Oversize { len, max }) => {
            assert_eq!(len, 5);
            assert_eq!(max, 4);
        },
        Ok(()) => panic!("expected oversize error"),
    }
    assert!(buf.is_empty());
}

#[test]
fn encode_rejects_what_the_length_field_cannot_carry() {
    let codec = TwoByteLenSkipReserved::new(MAX_FRAME_SIZE);
    let payload: Vec<u8> = vec![0u8; 65536];
    let mut buf: Vec<u8> = Vec::new();
    match codec.encode(&payload, &mut buf) {
        Err(FrameError::Oversize { len, max }) => {
            assert_eq!(len, 65536);
            assert_eq!(max, 65535);
        },
        Ok(()) => panic!("expected oversize error"),
    }
    assert!(buf.is_empty());
}
