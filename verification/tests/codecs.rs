use ouisync_network::message_io::{self, Message};
use ouisync_network::object_stream::{self, Decoded, LengthError};

/// Feeds `bytes` to the decoder in chunks of at most `chunk` bytes; returns the frames.
fn decode_all(decoder: &mut object_stream::Decoder, bytes: &[u8], chunk: usize) -> Vec<Vec<u8>> {
    let mut frames = Vec::new();
    let mut pos = 0;
    while pos < bytes.len() {
        let n = decoder.wanted().min(chunk).min(bytes.len() - pos);
        assert!(n > 0);
        match decoder.push(&bytes[pos..pos + n]) {
            Decoded::Frame(data) => frames.push(data),
            Decoded::NeedMore => {}
            Decoded::TooLong => panic!("too long"),
        }
        pos += n;
    }
    frames
}

/// Writes a frame through the encoder, `chunk` bytes at a time.
fn encode(data: Vec<u8>, chunk: usize) -> Vec<u8> {
    let mut encoder = object_stream::Encoder::new();
    encoder.start(data).unwrap();
    let mut out = Vec::new();
    loop {
        let pending = encoder.pending();
        let n = pending.len().min(chunk);
        out.extend_from_slice(&pending[..n]);
        if encoder.written(n) {
            break;
        }
    }
    out
}

#[test]
fn object_frame_round_trip() {
    for chunk in [1, 2, 3, 100] {
        let framed = encode(vec![1, 2, 3, 4, 5], chunk);
        assert_eq!(framed, vec![0, 5, 1, 2, 3, 4, 5]);
        let mut decoder = object_stream::Decoder::new();
        assert_eq!(decode_all(&mut decoder, &framed, chunk), vec![vec![1, 2, 3, 4, 5]]);
    }
}

#[test]
fn object_frames_in_sequence() {
    let mut bytes = encode(vec![9; 300], 7);
    bytes.extend(encode(vec![8], 7));
    assert_eq!(&bytes[..2], &[1, 44]);
    let mut decoder = object_stream::Decoder::new();
    assert_eq!(decode_all(&mut decoder, &bytes, 64), vec![vec![9; 300], vec![8]]);
}

#[test]
fn object_too_long() {
    let mut decoder = object_stream::Decoder::new();
    assert_eq!(decoder.push(&[0xff]), Decoded::NeedMore);
    assert_eq!(decoder.push(&[0xff]), Decoded::TooLong);
    let mut encoder = object_stream::Encoder::new();
    assert_eq!(encoder.start(vec![0; 65535]), Err(LengthError));
    assert!(encoder.start(vec![0; 65534]).is_ok());
}

#[test]
fn object_zero_length_frame_is_an_empty_object() {
    let mut decoder = object_stream::Decoder::new();
    assert_eq!(decoder.push(&[0, 0]), Decoded::Frame(vec![]));
    assert_eq!(decoder.wanted(), 2);
    assert_eq!(decoder.push(&[0, 1]), Decoded::NeedMore);
    assert_eq!(decoder.push(&[0x2a]), Decoded::Frame(vec![0x2a]));
}

fn encode_message(message: Message, chunk: usize) -> Vec<u8> {
    let mut encoder = message_io::Encoder::new();
    encoder.start(message).unwrap();
    let mut out = Vec::new();
    loop {
        let pending = encoder.pending();
        let n = pending.len().min(chunk);
        out.extend_from_slice(&pending[..n]);
        if encoder.written(n) {
            break;
        }
    }
    out
}

#[test]
fn message_frame_round_trip() {
    let message = Message { id: [7; 32], content: vec![1, 2, 3] };
    for chunk in [1, 5, 1000] {
        let bytes = encode_message(message.clone(), chunk);
        assert_eq!(bytes.len(), 32 + 2 + 3);
        assert_eq!(&bytes[32..34], &[0, 3]);
        let mut decoder = message_io::Decoder::new();
        let mut decoded = Vec::new();
        let mut pos = 0;
        while pos < bytes.len() {
            let n = decoder.wanted().min(chunk).min(bytes.len() - pos);
            if let message_io::Decoded::Message(m) = decoder.push(&bytes[pos..pos + n]) {
                decoded.push(m);
            }
            pos += n;
        }
        assert_eq!(decoded, vec![message.clone()]);
    }
}

#[test]
fn message_too_long() {
    let mut decoder = message_io::Decoder::new();
    assert_eq!(decoder.push(&[0; 32]), message_io::Decoded::NeedMore);
    assert_eq!(decoder.filled().len(), 0);
    assert_eq!(decoder.push(&[0xff, 0xff]), message_io::Decoded::TooLong);
    let mut encoder = message_io::Encoder::new();
    assert!(encoder.start(Message { id: [0; 32], content: vec![0; 65535] }).is_err());
}

#[test]
fn message_with_empty_content_round_trip() {
    let message = Message { id: [1; 32], content: vec![] };
    let mut encoder = message_io::Encoder::new();
    encoder.start(message.clone()).unwrap();
    assert_eq!(encoder.pending().len(), 32);
    assert!(!encoder.written(32));
    assert_eq!(encoder.pending(), vec![0, 0]);
    // The empty content needs no byte: the message is written once its length is.
    assert!(encoder.written(2));
    let mut decoder = message_io::Decoder::new();
    assert_eq!(decoder.push(&[1; 32]), message_io::Decoded::NeedMore);
    assert_eq!(decoder.wanted(), 2);
    assert_eq!(decoder.push(&[0, 0]), message_io::Decoded::Message(message));
    assert_eq!(decoder.wanted(), 32);
}

#[test]
fn two_messages_decode_in_order() {
    let mut bytes = vec![7u8; 32];
    bytes.extend_from_slice(&[0, 3]);
    bytes.extend_from_slice(b"abc");
    bytes.extend_from_slice(&[9u8; 32]);
    bytes.extend_from_slice(&[0, 1]);
    bytes.extend_from_slice(b"z");
    let mut decoder = message_io::Decoder::new();
    let mut decoded = Vec::new();
    let mut pos = 0;
    while pos < bytes.len() {
        let n = decoder.wanted().min(bytes.len() - pos);
        if let message_io::Decoded::Message(m) = decoder.push(&bytes[pos..pos + n]) {
            decoded.push(m);
        }
        pos += n;
    }
    assert_eq!(
        decoded,
        vec![Message { id: [7; 32], content: b"abc".to_vec() }, Message { id: [9; 32], content: b"z".to_vec() }]
    );
}

#[test]
fn message_stream_reads_back_in_order() {
    let messages = vec![
        Message { id: [1; 32], content: vec![1, 2, 3] },
        Message { id: [2; 32], content: vec![] },
        Message { id: [3; 32], content: vec![9; 300] },
        Message { id: [4; 32], content: vec![] },
    ];
    let mut stream = Vec::new();
    for message in &messages {
        stream.extend(encode_message(message.clone(), 7));
    }
    for chunk in [1, 3, 1000] {
        let mut decoder = message_io::Decoder::new();
        let mut decoded = Vec::new();
        let mut pos = 0;
        while pos < stream.len() {
            let n = decoder.wanted().min(chunk).min(stream.len() - pos);
            if let message_io::Decoded::Message(m) = decoder.push(&stream[pos..pos + n]) {
                decoded.push(m);
            }
            pos += n;
        }
        assert_eq!(decoded, messages);
    }
}
