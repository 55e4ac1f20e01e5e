use asnet::codec::{dec_feed, encode_frame, ReadState};

#[test]
fn test_encode_frame_exact() {
    let r = encode_frame(&vec![1u8, 2, 3]);
    assert_eq!(r, vec![0u8, 0, 0, 3, 1, 2, 3]);
}

#[test]
fn test_encode_frame_empty_payload() {
    let r = encode_frame(&Vec::new());
    assert_eq!(r, vec![0u8, 0, 0, 0]);
}

#[test]
fn test_encode_frame_length_bytes_big_endian() {
    let payload = vec![7u8; 513];
    let r = encode_frame(&payload);
    assert_eq!(&r[..4], &[0u8, 0, 2, 1]);
    assert_eq!(r.len(), 517);
}

fn feed_all(bytes: &[u8]) -> Result<(ReadState, Vec<Vec<u8>>), ()> {
    let mut st = ReadState::Start;
    let mut out = Vec::new();
    for &b in bytes {
        let (st2, done) = dec_feed(st, b)?;
        st = st2;
        if let Some(p) = done {
            out.push(p);
        }
    }
    Ok((st, out))
}

#[test]
fn test_decoder_one_frame_byte_at_a_time() {
    let (st, out) = feed_all(&[0, 0, 0, 2, 0xaa, 0xbb]).unwrap();
    assert!(matches!(st, ReadState::Start));
    assert_eq!(out, vec![vec![0xaa, 0xbb]]);
}

#[test]
fn test_decoder_zero_length_header_rejected() {
    // the first three zero bytes are fine; the fourth completes a header
    // that encodes length zero, the one protocol violation
    let mut st = ReadState::Start;
    for &b in &[0u8, 0, 0] {
        let (st2, done) = dec_feed(st, b).unwrap();
        assert!(done.is_none());
        st = st2;
    }
    assert!(dec_feed(st, 0).is_err());
}

#[test]
fn test_decoder_nonzero_after_zero_prefix_accepted() {
    let (_, out) = feed_all(&[0, 0, 0, 1, 9]).unwrap();
    assert_eq!(out, vec![vec![9u8]]);
}

#[test]
fn test_decoder_back_to_back_frames() {
    let mut bytes = encode_frame(&vec![1u8]);
    bytes.extend_from_slice(&encode_frame(&vec![2u8, 2]));
    bytes.extend_from_slice(&encode_frame(&vec![3u8, 3, 3]));
    let (st, out) = feed_all(&bytes).unwrap();
    assert!(matches!(st, ReadState::Start));
    assert_eq!(out, vec![vec![1u8], vec![2, 2], vec![3, 3, 3]]);
}

#[test]
fn test_decoder_round_trip_sizes() {
    // the framing round trip at every boundary-straddling size, delivered
    // one byte at a time
    for &size in &[1usize, 511, 512, 513, 100000] {
        let payload: Vec<u8> = (0..size).map(|i| (i % 251) as u8).collect();
        let bytes = encode_frame(&payload);
        let (st, out) = feed_all(&bytes).unwrap();
        assert!(matches!(st, ReadState::Start));
        assert_eq!(out.len(), 1);
        assert_eq!(out[0], payload);
    }
}

#[test]
fn test_decoder_round_trip_sequence_order() {
    let payloads: Vec<Vec<u8>> = vec![vec![5u8; 511], vec![6u8; 512], vec![7u8; 513], vec![8u8]];
    let mut bytes = Vec::new();
    for p in &payloads {
        bytes.extend_from_slice(&encode_frame(p));
    }
    let (_, out) = feed_all(&bytes).unwrap();
    assert_eq!(out, payloads);
}
