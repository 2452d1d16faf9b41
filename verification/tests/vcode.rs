use beyond_qr::vcode::{
    crc16, decode_frame, decode_frame_header, decode_from_cells, encode_frame, header_cells, is_frame_decodable, Bitmap,
    FrameError,
    FrameHeader, Layout, VERSION,
};

fn test_header(frame_seq: u16) -> FrameHeader {
    FrameHeader {
        version: VERSION,
        bits_per_cell: 1,
        layout: Layout::v0(),
        frame_seq,
        oti: [1, 2, 3, 4, 5, 6, 7, 8, 9, 10, 11, 12],
    }
}

fn test_blocks(n: usize, len: usize, seed: u8) -> Vec<Vec<u8>> {
    (0..n)
        .map(|bi| (0..len).map(|i| (i as u8).wrapping_mul(31).wrapping_add(bi as u8 ^ seed)).collect())
        .collect()
}

#[test]
fn crc16_known_vector() {
    assert_eq!(crc16(b"123456789"), 0x29B1);
}

#[test]
fn header_roundtrip() {
    let h = test_header(1234);
    let buf = h.serialize();
    assert_eq!(FrameHeader::deserialize(&buf), Some(h));
    let mut bad = buf;
    bad[9] ^= 0x40;
    assert_eq!(FrameHeader::deserialize(&bad), None);
}

#[test]
fn layout_v0_capacity() {
    let l = Layout::v0();
    assert_eq!((l.width(), l.height()), (100, 92));
    assert_eq!(l.block_count(), 20);
    assert_eq!(l.block_bytes(), 50);
    assert_eq!(l.block_payload_len(), 48);
    assert_eq!(l.packet_size(), 44);
    assert_eq!(header_cells(l.width()).len(), 528);
}

#[test]
fn frame_roundtrip_scale1() {
    let header = test_header(7);
    let blocks = test_blocks(20, Layout::v0().block_payload_len(), 0xA5);
    let bm = encode_frame(&header, &blocks, 1);
    let decoded = decode_frame(&bm, 1).unwrap();
    assert_eq!(decoded.header, header);
    for (i, b) in decoded.blocks.iter().enumerate() {
        assert_eq!(b.as_deref(), Some(blocks[i].as_slice()), "block {i}");
    }
}

#[test]
fn frame_roundtrip_scale3() {
    let header = test_header(8);
    let blocks = test_blocks(20, Layout::v0().block_payload_len(), 0x5A);
    let bm = encode_frame(&header, &blocks, 3);
    assert_eq!((bm.w, bm.h), (300, 276));
    let decoded = decode_frame(&bm, 3).unwrap();
    assert_eq!(decoded.header, header);
    for (i, b) in decoded.blocks.iter().enumerate() {
        assert_eq!(b.as_deref(), Some(blocks[i].as_slice()), "block {i}");
    }
}

#[test]
fn filler_blocks_decode_as_none() {
    let header = test_header(9);
    let blocks = test_blocks(5, Layout::v0().block_payload_len(), 0x11);
    let bm = encode_frame(&header, &blocks, 1);
    let decoded = decode_frame(&bm, 1).unwrap();
    for i in 0..5 {
        assert!(decoded.blocks[i].is_some());
    }
    for i in 5..20 {
        assert_eq!(decoded.blocks[i], None, "filler block {i} was recovered by mistake");
    }
}

#[test]
fn partial_corruption_recovers_intact_blocks() {
    let header = test_header(10);
    let blocks = test_blocks(20, Layout::v0().block_payload_len(), 0x77);
    let mut bm = encode_frame(&header, &blocks, 1);
    // Black out the blocks (bx, by) in (1..3, 1..3): cell rows 26..66,
    // columns 20..60 (the data area starts at row 6).
    for y in 26..66 {
        for x in 20..60 {
            bm.set(x, y, 0);
        }
    }
    let decoded = decode_frame(&bm, 1).unwrap();
    assert_eq!(decoded.header, header, "damage to the data area leaves the header intact");
    let expect_dead = [6usize, 7, 11, 12];
    for i in 0..20 {
        if expect_dead.contains(&i) {
            assert_eq!(decoded.blocks[i], None, "block {i} should be damaged");
        } else {
            assert_eq!(decoded.blocks[i].as_deref(), Some(blocks[i].as_slice()), "block {i} should be recovered intact");
        }
    }
}

#[test]
fn corner_corruption_is_detected() {
    let header = test_header(11);
    let blocks = test_blocks(20, Layout::v0().block_payload_len(), 0x33);
    let mut bm = encode_frame(&header, &blocks, 1);
    bm.set(0, 0, 255);
    assert_eq!(decode_frame(&bm, 1).unwrap_err(), FrameError::CornerMismatch);
}

#[test]
fn frame_roundtrip_scale2_with_other_layout() {
    let layout = Layout { block: 16, grid_w: 4, grid_h: 2 };
    let header = FrameHeader { version: VERSION, bits_per_cell: 1, layout, frame_seq: 65535, oti: [9; 12] };
    let blocks = test_blocks(6, layout.block_payload_len(), 0x42);
    let bm = encode_frame(&header, &blocks, 2);
    assert_eq!((bm.w, bm.h), (128, 2 * (2 * 16 + 12)));
    let decoded = decode_frame(&bm, 2).unwrap();
    assert_eq!(decoded.header, header);
    assert_eq!(decoded.blocks.len(), 8);
    for i in 0..6 {
        assert_eq!(decoded.blocks[i].as_deref(), Some(blocks[i].as_slice()));
    }
    assert_eq!(decoded.blocks[6], None);
    assert_eq!(decoded.blocks[7], None);
}

#[test]
fn bad_dimensions_are_rejected() {
    let header = test_header(1);
    let blocks = test_blocks(20, 48, 0);
    let bm = encode_frame(&header, &blocks, 2);
    assert_eq!(decode_frame(&bm, 0).unwrap_err(), FrameError::BadDimensions);
    assert_eq!(decode_frame(&bm, 3).unwrap_err(), FrameError::BadDimensions);
    let tiny = Bitmap::new_white(10, 10);
    assert_eq!(decode_frame(&tiny, 1).unwrap_err(), FrameError::BadDimensions);
}

#[test]
fn blank_frame_has_no_corners() {
    let bm = Bitmap::new_white(100, 92);
    assert_eq!(decode_frame(&bm, 1).unwrap_err(), FrameError::CornerMismatch);
}

#[test]
fn wiped_header_strip_is_not_found() {
    let header = test_header(3);
    let blocks = test_blocks(20, 48, 1);
    let mut bm = encode_frame(&header, &blocks, 1);
    for y in 0..6 {
        for x in 6..94 {
            bm.set(x, y, 255);
        }
    }
    assert_eq!(decode_frame(&bm, 1).unwrap_err(), FrameError::HeaderNotFound);
}

#[test]
fn header_for_another_size_is_a_layout_mismatch() {
    let mut header = test_header(4);
    header.bits_per_cell = 2;
    let blocks = test_blocks(20, 48, 2);
    let bm = encode_frame(&header, &blocks, 1);
    assert_eq!(decode_frame(&bm, 1).unwrap_err(), FrameError::LayoutMismatch);
}

#[test]
fn later_header_copy_is_used_when_the_first_is_damaged() {
    let header = test_header(5);
    let blocks = test_blocks(20, 48, 3);
    let mut bm = encode_frame(&header, &blocks, 1);
    // Damage only the first copy (header cells 0..176 lie in rows 0..2).
    for x in 6..94 {
        let v = bm.get(x, 0);
        bm.set(x, 0, 255 - v);
    }
    let decoded = decode_frame(&bm, 1).unwrap();
    assert_eq!(decoded.header, header);
}

#[test]
fn cell_grid_decoding_matches_bitmap_decoding() {
    let header = test_header(6);
    let blocks = test_blocks(20, 48, 4);
    let bm = encode_frame(&header, &blocks, 1);
    let grid: Vec<bool> = bm.data.iter().map(|&v| v < 128).collect();
    assert_eq!(decode_frame_header(&grid, 100, 92), Ok(header));
    let decoded = decode_from_cells(&grid, 100, 92).unwrap();
    assert_eq!(decoded.header, header);
    assert_eq!(decoded.blocks[19].as_deref(), Some(blocks[19].as_slice()));
}

#[test]
fn serialized_header_layout() {
    let h = test_header(0x1234);
    let buf = h.serialize();
    assert_eq!(&buf[..8], &[0xB9, 0, 1, 20, 5, 4, 0x34, 0x12]);
    let crc = crc16(&buf[..20]);
    assert_eq!(buf[20], (crc >> 8) as u8);
    assert_eq!(buf[21], crc as u8);
}

#[test]
fn crc16_of_nothing_is_the_initial_value() {
    assert_eq!(crc16(&[]), 0xFFFF);
}

#[test]
fn bitmap_set_and_get() {
    let mut bm = Bitmap::new_white(4, 3);
    assert_eq!(bm.data.len(), 12);
    assert_eq!(bm.get(3, 2), 255);
    bm.set(3, 2, 7);
    assert_eq!(bm.get(3, 2), 7);
    assert_eq!(bm.data[11], 7);
}

#[test]
fn crc16_residue_of_message_and_its_crc_is_zero() {
    for data in [&b"123456789"[..], &b""[..], &[0u8, 255, 7][..]] {
        let c = crc16(data);
        let mut full = data.to_vec();
        full.extend_from_slice(&c.to_be_bytes());
        assert_eq!(crc16(&full), 0);
    }
}

#[test]
fn crc16_detects_every_single_bit_flip() {
    let data = b"vcode header bytes".to_vec();
    let c = crc16(&data);
    for i in 0..data.len() {
        for bit in 0..8 {
            let mut flipped = data.clone();
            flipped[i] ^= 1 << bit;
            assert_ne!(crc16(&flipped), c);
        }
    }
}

#[test]
fn crc16_of_zero_runs_is_never_zero() {
    for n in 0..300 {
        assert_ne!(crc16(&vec![0u8; n]), 0);
    }
}

#[test]
fn frame_decodability_check() {
    let header = test_header(12);
    let blocks = test_blocks(20, 48, 5);
    let bm = encode_frame(&header, &blocks, 2);
    assert!(is_frame_decodable(&bm, 2));
    // Scales that do not divide the bitmap need no check.
    assert!(is_frame_decodable(&bm, 3));
    assert!(is_frame_decodable(&bm, 0));
    // A header that passes every check but declares 1-cell blocks (no room
    // for a CRC): the frame cannot be decoded.
    let tiny = Layout { block: 1, grid_w: 42, grid_h: 1 };
    let h2 = FrameHeader { version: VERSION, bits_per_cell: 1, layout: tiny, frame_seq: 0, oti: [0; 12] };
    let bm2 = encode_frame(&h2, &[], 1);
    assert!(!is_frame_decodable(&bm2, 1));
}

