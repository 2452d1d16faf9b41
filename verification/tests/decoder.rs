use beyond_qr::decoder::{decode_payload, extract_data_cells, unpack_cells_to_bytes, DecodeError};
use beyond_qr::ecc::{encode_blocks, EccError, RS_DATA_PER_BLOCK};
use beyond_qr::encoder::{encode_payload, pack_bytes_to_cells, place_cells_with_calibration};
use beyond_qr::frame::{make_spec, Frame, FrameSpec};
use beyond_qr::palette::{Color, BITS_PER_CELL};

#[test]
fn unpack_inverse_of_pack_simple() {
    let bytes = vec![0xABu8, 0xCD, 0xEF];
    let cells = pack_bytes_to_cells_helper(&bytes, 8);
    let back = unpack_cells_to_bytes(&cells, 3);
    assert_eq!(back, bytes);
}

fn pack_bytes_to_cells_helper(bytes: &[u8], cell_count: usize) -> Vec<Color> {
    let mut cells = Vec::with_capacity(cell_count);
    let mut buffer: u32 = 0;
    let mut bits: u32 = 0;
    let mut idx = 0usize;
    while cells.len() < cell_count {
        if bits < BITS_PER_CELL {
            if idx < bytes.len() {
                buffer = (buffer << 8) | bytes[idx] as u32;
                bits += 8;
                idx += 1;
            } else {
                buffer <<= BITS_PER_CELL - bits;
                bits = BITS_PER_CELL;
            }
            continue;
        }
        let shift = bits - BITS_PER_CELL;
        let c = ((buffer >> shift) & 0b111) as Color;
        buffer &= (1u32 << shift) - 1;
        bits -= BITS_PER_CELL;
        cells.push(c);
    }
    cells
}

#[test]
fn roundtrip_500_byte_payload() {
    let spec = FrameSpec::phase_0();
    let payload: Vec<u8> = (0..500).map(|i| (i as u8).wrapping_mul(37)).collect();
    let frame = encode_payload(&payload, spec).expect("encode");
    let recovered = decode_payload(&frame).expect("decode");
    assert_eq!(recovered, payload);
}

#[test]
fn roundtrip_with_no_calibration() {
    let spec = FrameSpec { calibration_rows: 0, ..FrameSpec::phase_0() };
    let payload: Vec<u8> = (0..500).map(|i| (i as u8).wrapping_mul(13)).collect();
    let frame = encode_payload(&payload, spec).expect("encode");
    let recovered = decode_payload(&frame).expect("decode");
    assert_eq!(recovered, payload);
}

#[test]
fn unpack_stops_at_whole_bytes() {
    // 5 cells hold 15 bits: one whole byte.
    assert_eq!(unpack_cells_to_bytes(&[0b101, 0b010, 0b111, 0, 0], 4), vec![0xAB]);
    // The target caps the count.
    assert_eq!(unpack_cells_to_bytes(&[7; 16], 2), vec![0xFF, 0xFF]);
}

#[test]
fn extract_skips_finders_and_calibration() {
    let spec = FrameSpec::phase_0();
    let cells: Vec<u8> = (0..spec.total_cells()).map(|i| (i % 8) as u8).collect();
    let data = extract_data_cells(spec, &cells);
    assert_eq!(data.len(), spec.data_cells());
    assert_eq!(data[0], cells[8]);
}

#[test]
fn too_small_a_frame_has_no_length_header() {
    // No RS block fits: the RS data is empty, so the length header is cut.
    let spec = make_spec(10, 10, 1, 1, 0, 0);
    let frame = Frame::new(spec, vec![0; 100]);
    assert_eq!(decode_payload(&frame), Err(DecodeError::TruncatedHeader));
}

#[test]
fn corrupted_frame_fails_rs_decoding() {
    let spec = FrameSpec::phase_0();
    let cells: Vec<u8> = (0..spec.total_cells()).map(|i| ((i * 5 + i / 7) % 8) as u8).collect();
    let frame = Frame::new(spec, cells);
    assert_eq!(decode_payload(&frame), Err(DecodeError::Ecc(EccError::DecodeFailure)));
}

#[test]
fn declared_length_beyond_data_is_rejected() {
    let spec = FrameSpec::phase_0();
    let blocks = spec.rs_blocks();
    let mut data = vec![0u8; blocks * RS_DATA_PER_BLOCK];
    data[0] = 0xFF;
    data[1] = 0xFF;
    data[2] = 0xFF;
    data[3] = 0xFF;
    let codewords = encode_blocks(&data);
    let mut bytes = codewords.clone();
    bytes.resize(spec.data_bytes(), 0);
    let cells = pack_bytes_to_cells(&bytes, spec.data_cells());
    let frame = Frame::new(spec, place_cells_with_calibration(spec, &cells));
    assert_eq!(
        decode_payload(&frame),
        Err(DecodeError::InvalidLength { declared: 0xFFFF_FFFF, available: blocks * RS_DATA_PER_BLOCK - 4 })
    );
}
