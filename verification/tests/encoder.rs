use beyond_qr::encoder::{encode_payload, pack_bytes_to_cells, place_cells_with_calibration, EncodeError};
use beyond_qr::frame::{CellRole, FrameSpec};

#[test]
fn rejects_oversized_payload() {
    let spec = FrameSpec::phase_0();
    let oversize = vec![0u8; spec.max_payload_bytes() + 1];
    let r = encode_payload(&oversize, spec);
    assert!(matches!(r, Err(EncodeError::PayloadTooLarge { .. })));
}

#[test]
fn encodes_to_expected_cell_count() {
    let spec = FrameSpec::phase_0();
    let payload = vec![0xAB; 500];
    let frame = encode_payload(&payload, spec).unwrap();
    assert_eq!(frame.cells.len(), spec.total_cells());
    for &c in &frame.cells {
        assert!(c < 8, "color index out of range: {c}");
    }
}

#[test]
fn calibration_row_filled_with_reference_colors() {
    let spec = FrameSpec::phase_0();
    let frame = encode_payload(&vec![0; 100], spec).unwrap();
    let cal_row = spec.calibration_row_start;
    for col in 0..spec.grid_width {
        assert_eq!(frame.cells[cal_row * spec.grid_width + col], spec.calibration_color_for(col));
    }
}

#[test]
fn finder_cells_filled_with_finder_pattern() {
    let spec = FrameSpec::phase_0();
    let frame = encode_payload(&vec![0; 100], spec).unwrap();
    assert_eq!(frame.cells[0], 0);
    assert_eq!(frame.cells[1 * spec.grid_width + 1], 7);
    assert_eq!(frame.cells[3 * spec.grid_width + 3], 0);
}

#[test]
fn oversized_payload_error_reports_both_lengths() {
    let spec = FrameSpec::phase_0();
    let max = spec.max_payload_bytes();
    let r = encode_payload(&vec![1u8; max + 10], spec);
    assert_eq!(r, Err(EncodeError::PayloadTooLarge { max, given: max + 10 }));
    assert!(encode_payload(&vec![1u8; max], spec).is_ok());
}

#[test]
fn pack_takes_three_bits_per_cell_msb_first() {
    // 0xAB = 101 010 11(0-padded) ...
    let cells = pack_bytes_to_cells(&[0xAB, 0xCD], 7);
    // bits: 10101011 11001101 -> 101 010 111 100 110 1(00) then zero padding
    assert_eq!(cells, vec![0b101, 0b010, 0b111, 0b100, 0b110, 0b100, 0]);
}

#[test]
fn placement_fills_finders_calibration_and_data_in_order() {
    let spec = FrameSpec::phase_0();
    let data: Vec<u8> = (0..spec.data_cells()).map(|i| (i % 8) as u8).collect();
    let cells = place_cells_with_calibration(spec, &data);
    assert_eq!(cells.len(), spec.total_cells());
    // The first data cell in row-major order is (0, 8).
    assert_eq!(spec.cell_role(0, 8), CellRole::Data);
    assert_eq!(cells[8], data[0]);
    assert_eq!(cells[9], data[1]);
    // Calibration row.
    assert_eq!(cells[64 * 128 + 20], spec.calibration_color_for(20));
}

#[test]
fn encoding_is_deterministic() {
    let spec = FrameSpec::phase_0();
    let payload: Vec<u8> = (0..77u32).map(|i| (i * 5) as u8).collect();
    let a = encode_payload(&payload, spec).unwrap();
    let b = encode_payload(&payload, spec).unwrap();
    assert_eq!(a, b);
}
