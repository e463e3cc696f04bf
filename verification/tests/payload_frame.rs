use hidden_watermark::frame::{
    bits_to_bytes, build_frame, frame_bits, frame_from_bits, frame_len_from_header_bits, majority_bits,
    parse_frame, parse_frame_header, push_byte_bits, vote_frame, HeaderStatus, ParseFrameResult, CRC_BYTES,
    HEADER_BYTES, MAGIC, VERSION,
};

#[test]
fn frame_roundtrip() {
    let frame = build_frame(b"asset-123");
    let bits = frame_bits(&frame);
    let decoded = bits_to_bytes(&bits, frame.len());
    assert!(matches!(
        parse_frame(&decoded),
        ParseFrameResult::Decoded(id) if id == "asset-123"
    ));
}

#[test]
fn rejects_invalid_crc() {
    let mut frame = build_frame(b"asset-123");
    frame[HEADER_BYTES] ^= 1;
    assert!(matches!(parse_frame(&frame), ParseFrameResult::CrcMismatch));
}

#[test]
fn frame_layout_and_known_checksum() {
    let frame = build_frame(b"abc");
    assert_eq!(frame.len(), HEADER_BYTES + 3 + CRC_BYTES);
    assert_eq!(&frame[..4], &MAGIC);
    assert_eq!(frame[4], VERSION);
    assert_eq!(frame[5], 3);
    assert_eq!(&frame[6..9], b"abc");
    let crc = crc32fast::hash(&frame[..9]);
    assert_eq!(&frame[9..], &crc.to_be_bytes());
    // The checksum is a real CRC, not the bytes handed back.
    assert_ne!(&frame[9..], &frame[5..9]);
}

#[test]
fn empty_id_roundtrips() {
    let frame = build_frame(b"");
    assert_eq!(frame.len(), 10);
    assert!(matches!(parse_frame(&frame), ParseFrameResult::Decoded(id) if id.is_empty()));
}

#[test]
fn short_or_foreign_frames_are_not_watermarks() {
    assert!(matches!(parse_frame(&[]), ParseFrameResult::NoWatermark));
    assert!(matches!(parse_frame(&[72, 87, 77, 50, 2, 0, 0, 0, 0]), ParseFrameResult::NoWatermark));
    let mut frame = build_frame(b"id");
    frame[0] = b'X';
    assert!(matches!(parse_frame(&frame), ParseFrameResult::NoWatermark));
    let mut frame = build_frame(b"id");
    frame[4] = VERSION + 1;
    assert!(matches!(parse_frame(&frame), ParseFrameResult::NoWatermark));
}

#[test]
fn truncated_ids_are_unsupported() {
    let mut frame = build_frame(b"id");
    frame[5] = 65;
    assert!(matches!(parse_frame(&frame), ParseFrameResult::UnsupportedPayload));
    let mut frame = build_frame(b"id");
    frame[5] = 10;
    assert!(matches!(parse_frame(&frame), ParseFrameResult::UnsupportedPayload));
}

#[test]
fn invalid_utf8_id_is_unsupported() {
    let frame = build_frame(&[0xff, 0xfe]);
    assert!(matches!(parse_frame(&frame), ParseFrameResult::UnsupportedPayload));
}

#[test]
fn bits_are_most_significant_first() {
    let mut bits = vec![true];
    push_byte_bits(0b1010_0001, &mut bits);
    assert_eq!(bits, vec![true, true, false, true, false, false, false, false, true]);
    assert_eq!(frame_bits(&[0x80, 0x01]).len(), 16);
    assert_eq!(bits_to_bytes(&[true, false, true], 2), vec![0b1010_0000, 0]);
}

#[test]
fn header_status_cases() {
    assert!(matches!(parse_frame_header(&[72, 87, 77, 50, 2, 7]), HeaderStatus::Valid(7)));
    assert!(matches!(parse_frame_header(&[72, 87, 77, 50, 2, 65]), HeaderStatus::Valid(65)));
    assert!(matches!(parse_frame_header(&[72, 87, 77, 50, 2, 255]), HeaderStatus::Valid(255)));
    assert!(matches!(parse_frame_header(&[72, 87, 77, 50, 1, 7]), HeaderStatus::Invalid));
    assert!(matches!(parse_frame_header(&[72, 87, 77, 50, 2]), HeaderStatus::Invalid));
}

#[test]
fn header_bits_announce_frame_length() {
    let frame = build_frame(b"asset-123");
    let bits = frame_bits(&frame);
    assert_eq!(frame_len_from_header_bits(&bits[..48]), Some(frame.len()));
    assert_eq!(frame_len_from_header_bits(&bits), Some(19));
    // Missing header bits read as zero: an empty ID.
    assert_eq!(frame_len_from_header_bits(&bits[..40]), Some(10));
    let mut bad = bits.clone();
    bad[0] = !bad[0];
    assert_eq!(frame_len_from_header_bits(&bad), None);
}

#[test]
fn frame_from_bits_reads_back_ids() {
    let frame = build_frame(b"img-7");
    let bits = frame_bits(&frame);
    assert!(matches!(frame_from_bits(&bits, frame.len()), ParseFrameResult::Decoded(id) if id == "img-7"));
    let mut flipped = bits.clone();
    flipped[60] = !flipped[60];
    assert!(matches!(frame_from_bits(&flipped, frame.len()), ParseFrameResult::CrcMismatch));
    assert!(matches!(frame_from_bits(&bits, 3), ParseFrameResult::NoWatermark));
}

#[test]
fn majority_vote_merges_copies() {
    let words = vec![
        vec![true, true, false, false],
        vec![true, false, true, false],
        vec![false, true, true, false],
    ];
    assert_eq!(majority_bits(&words), Some(vec![true, true, true, false]));
    // Ties go to one.
    let two = vec![vec![true, false], vec![false, false]];
    assert_eq!(majority_bits(&two), Some(vec![true, false]));
    assert_eq!(majority_bits(&vec![vec![true]]), None);
    assert_eq!(majority_bits(&vec![vec![], vec![]]), None);
    assert_eq!(majority_bits(&vec![vec![true], vec![true, false]]), None);
}

#[test]
fn vote_frame_recovers_from_damaged_copies() {
    let frame = build_frame(b"vote");
    let clean = frame_bits(&frame);
    let mut a = clean.clone();
    let mut b = clean.clone();
    let mut c = clean.clone();
    a[3] = !a[3];
    b[50] = !b[50];
    c[90] = !c[90];
    let r = vote_frame(&vec![a.clone(), b, c], frame.len());
    assert!(matches!(r, Some(ParseFrameResult::Decoded(id)) if id == "vote"));
    assert!(vote_frame(&vec![a], frame.len()).is_none());
}

#[test]
fn ids_up_to_255_bytes_round_trip() {
    for n in [64usize, 65, 200, 255] {
        let id = "x".repeat(n);
        let mut frame = build_frame(id.as_bytes());
        assert_eq!(frame.len(), 10 + n);
        assert_eq!(frame[5] as usize, n);
        frame.extend_from_slice(&[1, 2, 3]);
        match parse_frame(&frame) {
            ParseFrameResult::Decoded(s) => assert_eq!(s, id),
            _ => panic!("a {n}-byte ID must round trip"),
        }
    }
}

#[test]
fn packed_bits_match_input_bit_by_bit() {
    let bits: Vec<bool> = (0..21).map(|i| (i * 5 + 2) % 3 == 0).collect();
    let bytes = bits_to_bytes(&bits, 4);
    assert_eq!(bytes.len(), 4);
    for i in 0..4 {
        for k in 0..8 {
            let expected = bits.get(8 * i + k) == Some(&true);
            assert_eq!((bytes[i] >> (7 - k)) & 1 == 1, expected, "byte {i} bit {k}");
        }
    }
    assert_eq!(bits_to_bytes(&[true], 2), vec![0x80, 0x00]);
    assert_eq!(frame_bits(&[0xA5]), vec![true, false, true, false, false, true, false, true]);
    assert_eq!(bits_to_bytes(&frame_bits(&[0xA5, 0x3C]), 2), vec![0xA5, 0x3C]);
}
