use rusted_cube::websocket::{
    accept_key, base64, read_frame, write_close, write_pong, write_text, ByteStream, Frame,
};

fn client_frame(opcode: u8, payload: &[u8]) -> Vec<u8> {
    assert!(payload.len() < 126);
    let mask = [0x12, 0x34, 0x56, 0x78];
    let mut frame = vec![0x80 | opcode, 0x80 | payload.len() as u8];
    frame.extend_from_slice(&mask);
    frame.extend(
        payload
            .iter()
            .enumerate()
            .map(|(index, byte)| byte ^ mask[index % mask.len()]),
    );
    frame
}

#[test]
fn base64_matches_known_values() {
    assert_eq!(base64(b""), "");
    assert_eq!(base64(b"f"), "Zg==");
    assert_eq!(base64(b"fo"), "Zm8=");
    assert_eq!(base64(b"foo"), "Zm9v");
    assert_eq!(base64(b"foob"), "Zm9vYg==");
    assert_eq!(base64(b"fooba"), "Zm9vYmE=");
    assert_eq!(base64(b"foobar"), "Zm9vYmFy");
}

#[test]
fn accept_key_matches_the_rfc_example() {
    assert_eq!(
        accept_key("dGhlIHNhbXBsZSBub25jZQ=="),
        "s3pPLMBiTxaQ9kYGzzhZRbK+xOo="
    );
}

#[test]
fn reads_a_masked_text_frame() {
    let mut frame = ByteStream::new(client_frame(0x1, b"hello"));
    match read_frame(&mut frame) {
        Some(Frame::Text(text)) => assert_eq!(text, "hello"),
        _ => panic!("expected a text frame"),
    }
}

#[test]
fn rejects_unmasked_or_fragmented_client_frames() {
    let mut unmasked = ByteStream::new(vec![0x88, 0x00]);
    assert!(read_frame(&mut unmasked).is_none());

    let mut fragmented = client_frame(0x1, b"hello");
    fragmented[0] &= !0x80;
    assert!(read_frame(&mut ByteStream::new(fragmented)).is_none());
}

#[test]
fn server_frames_are_finished_and_unmasked() {
    let mut bytes = Vec::new();
    write_text(&mut bytes, "hello").expect("write frame");
    assert_eq!(bytes, b"\x81\x05hello");
}

#[test]
fn base64_of_binary_bytes_uses_the_last_two_symbols() {
    assert_eq!(base64(&[0xfb, 0xff]), "+/8=");
    assert_eq!(base64(&[0x00, 0x00, 0x00]), "AAAA");
}

#[test]
fn a_ping_is_read_and_the_stream_moves_past_it() {
    let mut bytes = client_frame(0x9, b"abc");
    bytes.extend(client_frame(0x8, b""));
    let mut stream = ByteStream::new(bytes);
    match read_frame(&mut stream) {
        Some(Frame::Ping(payload)) => assert_eq!(payload, b"abc"),
        _ => panic!("expected a ping frame"),
    }
    assert!(matches!(read_frame(&mut stream), Some(Frame::Close)));
    assert_eq!(stream.remaining(), 0);
}

#[test]
fn binary_frames_are_read_as_other() {
    let mut stream = ByteStream::new(client_frame(0x2, &[1, 2, 3]));
    assert!(matches!(read_frame(&mut stream), Some(Frame::Other)));
}

#[test]
fn invalid_utf8_text_is_rejected() {
    let mut stream = ByteStream::new(client_frame(0x1, &[0xff, 0xfe]));
    assert!(read_frame(&mut stream).is_none());
}

#[test]
fn a_truncated_frame_is_rejected() {
    let mut bytes = client_frame(0x1, b"hello");
    bytes.pop();
    assert!(read_frame(&mut ByteStream::new(bytes)).is_none());
}

#[test]
fn a_one_byte_close_payload_is_rejected() {
    let mut stream = ByteStream::new(client_frame(0x8, &[3]));
    assert!(read_frame(&mut stream).is_none());
}

#[test]
fn oversized_control_frames_are_rejected() {
    let mut frame = vec![0x89, 0x80 | 126, 0x00, 126, 0, 0, 0, 0];
    frame.extend(vec![0_u8; 126]);
    assert!(read_frame(&mut ByteStream::new(frame)).is_none());
}

#[test]
fn extended_lengths_are_read() {
    let payload = vec![b'a'; 300];
    let mut frame = vec![0x81, 0x80 | 126, 0x01, 0x2c, 0, 0, 0, 0];
    frame.extend(payload.iter().copied());
    match read_frame(&mut ByteStream::new(frame)) {
        Some(Frame::Text(text)) => assert_eq!(text.len(), 300),
        _ => panic!("expected a text frame"),
    }
}

#[test]
fn pong_and_close_frames_are_written() {
    let mut bytes = Vec::new();
    write_pong(&mut bytes, b"xy").expect("pong");
    write_close(&mut bytes).expect("close");
    assert_eq!(bytes, vec![0x8a, 0x02, b'x', b'y', 0x88, 0x00]);
}

#[test]
fn long_server_frames_use_extended_lengths() {
    let text = "z".repeat(70_000);
    let mut bytes = Vec::new();
    write_text(&mut bytes, &text).expect("write frame");
    assert_eq!(&bytes[..10], &[0x81, 127, 0, 0, 0, 0, 0, 0x01, 0x11, 0x70]);
    assert_eq!(bytes.len(), 10 + 70_000);

    let medium = "m".repeat(300);
    let mut bytes = Vec::new();
    write_text(&mut bytes, &medium).expect("write frame");
    assert_eq!(&bytes[..4], &[0x81, 126, 0x01, 0x2c]);
}

fn masked_frame(opcode: u8, mask: [u8; 4], length_field: &[u8], payload: &[u8]) -> Vec<u8> {
    let mut frame = vec![0x80 | opcode];
    frame.extend_from_slice(length_field);
    frame.extend_from_slice(&mask);
    frame.extend(payload.iter().enumerate().map(|(i, b)| b ^ mask[i % 4]));
    frame
}

#[test]
fn any_mask_and_length_encoding_reads_back_the_payload() {
    let payload = b"masked either way";
    let n = payload.len() as u8;
    for mask in [[0, 0, 0, 0], [0xFF, 0x01, 0x80, 0x7F], [0x12, 0x34, 0x56, 0x78]] {
        let fields = [
            vec![0x80 | n],
            vec![0xFE, 0, n],
            vec![0xFF, 0, 0, 0, 0, 0, 0, 0, n],
        ];
        for field in fields.iter() {
            let bytes = masked_frame(0x1, mask, field, payload);
            let used = bytes.len();
            let mut stream = ByteStream::new([bytes, vec![9, 9]].concat());
            match read_frame(&mut stream) {
                Some(Frame::Text(text)) => assert_eq!(text.as_bytes(), payload),
                _ => panic!("expected the text back"),
            }
            assert_eq!(stream.remaining(), 2);
            assert!(used > 4);
        }
    }
}

#[test]
fn base64_length_and_padding_follow_the_input() {
    for n in 0..10usize {
        let input: Vec<u8> = (0..n as u8).map(|b| b.wrapping_mul(37)).collect();
        let out = base64(&input);
        assert_eq!(out.len(), 4 * ((n + 2) / 3));
        let pad = (3 - n % 3) % 3;
        assert!(out[..out.len() - pad].chars().all(|c| c != '='));
        assert!(out[out.len() - pad..].chars().all(|c| c == '='));
    }
    assert_eq!(base64(b"foobar"), format!("{}{}", base64(b"foo"), base64(b"bar")));
}
